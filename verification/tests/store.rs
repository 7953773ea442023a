//! The store: lifecycle of sweeps, leases, completion, reports and control.

use trail::rows::{FolderRow, SweepRow, TaskRow, WorkRow};
use trail::scheduler::{Fraction, Recency, ScoreExpr};
use trail::{
    Config, Error, FolderStat, NextResult, Real, Score, StatusReport, Store, Strategy, SweepStatus,
    WorkStatus,
};

const NOW: i64 = 1_000_000;

fn binary64(x: f64) -> Real {
    Real { bits: x.to_bits() }
}

fn number(r: Real) -> f64 {
    f64::from_bits(r.bits)
}

fn unit(n: u64) -> f64 {
    n as f64 / 9_007_199_254_740_992.0
}

fn fraction(f: Fraction) -> f64 {
    f.num as f64 / f.den as f64
}

fn priority(r: Recency) -> f64 {
    match r {
        Recency::Never => 1.0,
        Recency::Fresh => 0.0,
        Recency::Aged { secs, half_life } => {
            1.0 - (-std::f64::consts::LN_2 * secs as f64 / half_life as f64).exp()
        }
    }
}

fn value(e: ScoreExpr) -> f64 {
    match e {
        ScoreExpr::Unit { unit: u } => unit(u),
        ScoreExpr::LeastRecent { recency, tie } => priority(recency) + 1e-9 * unit(tie),
        ScoreExpr::Blend { recency, weight, outcome, alpha, outcome_weight, tie } => {
            let a = number(alpha);
            let o = number(outcome_weight);
            (1.0 - o) * (a * priority(recency) + (1.0 - a) * fraction(weight))
                + o * fraction(outcome)
                + 1e-9 * unit(tie)
        }
    }
}

fn scorer(e: ScoreExpr) -> Score {
    Score::from_bits(value(e).to_bits())
}

fn folders(n: usize) -> Vec<FolderStat> {
    (0..n)
        .map(|i| FolderStat {
            path: format!("dir{i:03}"),
            file_count: (i as i64 % 5) + 1,
            size_bytes: 100,
            churn: 0,
        })
        .collect()
}

fn named(paths: &[&str]) -> Vec<FolderStat> {
    paths
        .iter()
        .map(|p| FolderStat { path: p.to_string(), file_count: 1, size_bytes: 1, churn: 0 })
        .collect()
}

fn seeded(n: usize) -> (Store, Config) {
    let mut s = Store::open_in_memory().unwrap();
    s.replace_folders(&folders(n), NOW).unwrap();
    (s, Config::default())
}

fn next(
    s: &mut Store,
    task: &str,
    cfg: &Config,
    agent: Option<&str>,
    auto: bool,
    now: i64,
) -> NextResult {
    s.next(task, cfg, agent, None, auto, now, &scorer).unwrap()
}

fn done(s: &mut Store, path: &str, agent: &str, now: i64) -> trail::CompleteResult {
    s.complete("t", path, Some(agent), WorkStatus::Done, None, None, now).unwrap()
}

fn percent(st: &StatusReport) -> f64 {
    100.0 * st.percent.part as f64 / st.percent.whole as f64
}

/// Drain a single sweep with one agent, completing as we go.
fn drain(s: &mut Store, task: &str, status: WorkStatus, now: i64) -> Vec<String> {
    let mut got = Vec::new();
    let cfg = Config::default();
    while let NextResult::Claimed { path, .. } = next(s, task, &cfg, Some("a"), false, now) {
        s.complete(task, &path, Some("a"), status, None, None, now).unwrap();
        got.push(path);
    }
    got
}

fn claim_path(s: &mut Store, cfg: &Config, agent: &str, now: i64) -> String {
    match next(s, "t", cfg, Some(agent), false, now) {
        NextResult::Claimed { path, .. } => path,
        other => panic!("expected a folder, got {other:?}"),
    }
}

fn visit_count(s: &Store, task: &str) -> usize {
    s.visits.iter().filter(|v| v.task == task).count()
}

fn last_visit_reason(s: &Store, task: &str, path: &str) -> Option<String> {
    s.visits
        .iter()
        .filter(|v| v.task == task && v.path == path)
        .last()
        .and_then(|v| v.reason.clone())
}

/// Assert the maintained sweep counters match the actual board.
fn assert_counters_consistent(s: &Store, task: &str) {
    for row in s.sweeps.iter().filter(|r| r.task == task) {
        let actual = |st: Option<WorkStatus>| {
            s.work
                .iter()
                .filter(|w| w.task == task && w.sweep == row.sweep)
                .filter(|w| st.is_none() || st == Some(w.status))
                .count() as i64
        };
        assert_eq!(row.total, actual(None), "sweep {}: total counter drift", row.sweep);
        assert_eq!(row.pending, actual(Some(WorkStatus::Pending)));
        assert_eq!(row.leased, actual(Some(WorkStatus::Leased)));
        assert_eq!(row.done, actual(Some(WorkStatus::Done)));
        assert_eq!(row.skipped, actual(Some(WorkStatus::Skipped)));
    }
}

#[test]
fn full_sweep_lifecycle() {
    let (mut s, cfg) = seeded(3);
    let mut claimed = Vec::new();
    loop {
        match next(&mut s, "t", &cfg, Some("a1"), false, NOW) {
            NextResult::Claimed { path, .. } => {
                claimed.push(path.clone());
                let r = s
                    .complete("t", &path, Some("a1"), WorkStatus::Done, None, None, NOW)
                    .unwrap();
                assert_eq!(r.status, "done");
            }
            NextResult::SweepComplete { covered, .. } => {
                assert_eq!(covered, 3);
                break;
            }
            NextResult::NoneAvailable { .. } => panic!("unexpected with one agent"),
        }
    }
    claimed.sort();
    assert_eq!(claimed, vec!["dir000", "dir001", "dir002"]);
    let st = s.status("t").unwrap();
    assert_eq!(st.done, 3);
    assert!((percent(&st) - 100.0).abs() < 1e-9);
}

#[test]
fn empty_repo_completes_immediately() {
    let mut s = Store::open_in_memory().unwrap();
    let cfg = Config::default();
    match next(&mut s, "t", &cfg, None, false, NOW) {
        NextResult::SweepComplete { covered, .. } => assert_eq!(covered, 0),
        other => panic!("expected sweep-complete, got {other:?}"),
    }
}

#[test]
fn recency_orders_the_next_sweep() {
    // Equal weights so recency dominates. Visit the folders in sweep 1 at
    // increasing times, then open sweep 2: the folder visited *earliest*
    // (most stale) must be handed out first.
    let mut s = Store::open_in_memory().unwrap();
    let mut cfg = Config::default();
    cfg.strategy.default = Strategy::RoundRobin;
    s.replace_folders(&named(&["a", "b", "c"]), 0).unwrap();

    // Sweep 1: visit a at t=100, b at t=200, c at t=300.
    for (p, t) in [("a", 100), ("b", 200), ("c", 300)] {
        // claim something then complete the specific path at time t
        let _ = next(&mut s, "t", &cfg, Some("x"), false, t);
        s.complete("t", p, Some("x"), WorkStatus::Done, None, None, t).unwrap();
    }

    // Sweep 2 at t=1000: stalest first => a (visited at 100) before c (300).
    let first = match next(&mut s, "t", &cfg, Some("x"), true, 1000) {
        NextResult::Claimed { path, sweep, .. } => {
            assert_eq!(sweep, 2);
            path
        }
        other => panic!("expected a folder, got {other:?}"),
    };
    assert_eq!(first, "a", "most-stale folder should lead the new sweep");
}

#[test]
fn no_auto_sweep_reports_complete_then_explicit_new_sweep() {
    let (mut s, cfg) = seeded(2);
    // Drain sweep 1.
    loop {
        match next(&mut s, "t", &cfg, Some("a"), false, NOW) {
            NextResult::Claimed { path, .. } => {
                done(&mut s, &path, "a", NOW);
            }
            NextResult::SweepComplete { sweep, .. } => {
                assert_eq!(sweep, 1);
                break;
            }
            _ => unreachable!(),
        }
    }
    // Without auto-sweep, next keeps reporting complete.
    assert!(matches!(
        next(&mut s, "t", &cfg, Some("a"), false, NOW),
        NextResult::SweepComplete { .. }
    ));
    // Explicit new sweep opens sweep 2.
    let info = s.open_new_sweep("t", &cfg, NOW, &scorer).unwrap();
    assert_eq!(info.sweep, 2);
    assert_eq!(info.total, 2);
}

#[test]
fn expired_lease_is_reclaimed() {
    let (mut s, mut cfg) = seeded(1);
    cfg.lease.ttl_secs = 10;
    // Claim the only folder at t=NOW (lease expires at NOW+10).
    let path = match next(&mut s, "t", &cfg, Some("a1"), false, NOW) {
        NextResult::Claimed { path, .. } => path,
        other => panic!("expected a folder, got {other:?}"),
    };
    // Before expiry, another agent finds nothing pending but a live lease.
    match next(&mut s, "t", &cfg, Some("a2"), false, NOW + 5) {
        NextResult::NoneAvailable { leased_outstanding, .. } => assert_eq!(leased_outstanding, 1),
        other => panic!("expected none-available, got {other:?}"),
    }
    // After expiry, the folder is reclaimed and handed to a2.
    match next(&mut s, "t", &cfg, Some("a2"), false, NOW + 100) {
        NextResult::Claimed { path: p2, .. } => assert_eq!(p2, path),
        other => panic!("expected reclaim, got {other:?}"),
    }
}

#[test]
fn interleaved_agents_cover_every_folder_exactly_once() {
    let n = 60usize;
    let (mut s, mut cfg) = seeded(n);
    cfg.lease.ttl_secs = 3600;
    s.open_new_sweep("t", &cfg, NOW, &scorer).unwrap();
    let mut held: Vec<Option<String>> = (0..8).map(|_| None).collect();
    let mut claimed = Vec::new();
    let mut finished = 0;
    while finished < 8 {
        finished = 0;
        for tid in 0..8 {
            let agent = format!("a{tid}");
            match held[tid].take() {
                Some(path) => {
                    s.complete("t", &path, Some(&agent), WorkStatus::Done, None, None, NOW)
                        .unwrap();
                }
                None => match next(&mut s, "t", &cfg, Some(&agent), false, NOW) {
                    NextResult::Claimed { path, .. } => {
                        claimed.push(path.clone());
                        held[tid] = Some(path);
                    }
                    NextResult::SweepComplete { .. } => finished += 1,
                    NextResult::NoneAvailable { .. } => {}
                },
            }
        }
    }
    claimed.sort();
    let before = claimed.len();
    claimed.dedup();
    assert_eq!(claimed.len(), before, "no folder claimed twice");
    assert_eq!(claimed.len(), n, "every folder covered exactly once");
    assert_counters_consistent(&s, "t");
}

#[test]
fn complete_unknown_path_errors_and_recompletion_is_idempotent() {
    let (mut s, cfg) = seeded(2);
    let path = claim_path(&mut s, &cfg, "a1", NOW);
    done(&mut s, &path, "a1", NOW);

    // A bogus path is a real miss, not silent success.
    assert!(matches!(
        s.complete("t", "does/not/exist", Some("a1"), WorkStatus::Done, None, None, NOW),
        Err(Error::NotInSweep(_))
    ));

    // Re-completing the same real path stays Ok and reports done.
    let visits = visit_count(&s, "t");
    let again = s
        .complete("t", &path, Some("a1"), WorkStatus::Done, None, None, NOW)
        .unwrap();
    assert_eq!(again.status, "done");
    assert_eq!(visit_count(&s, "t"), visits);

    // Neither the miss nor the idempotent redo advanced coverage past 1.
    let st = s.status("t").unwrap();
    assert_eq!(st.done, 1);
    assert_eq!(st.skipped, 0);
}

#[test]
fn recompletion_keeps_the_first_status() {
    let (mut s, cfg) = seeded(2);
    let path = claim_path(&mut s, &cfg, "a1", NOW);
    done(&mut s, &path, "a1", NOW);
    let r = s
        .complete("t", &path, None, WorkStatus::Skipped, Some("late"), Some(7), NOW + 1)
        .unwrap();
    assert_eq!(r.status, "done");
    assert_eq!(visit_count(&s, "t"), 1);
    assert_eq!(s.status("t").unwrap().skipped, 0);
}

#[test]
fn recompletion_changes_nothing_whatever_the_counters_say() {
    let (mut s, cfg) = seeded(2);
    let path = claim_path(&mut s, &cfg, "a1", NOW);
    s.sweeps[0].pending = 41;
    s.sweeps[0].leased = -3;
    let first = done(&mut s, &path, "a1", NOW);
    assert_eq!((s.sweeps[0].pending, s.sweeps[0].leased, first.remaining), (41, -4, 37));
    let again =
        s.complete("t", &path, None, WorkStatus::Skipped, None, Some(7), NOW + 1).unwrap();
    assert_eq!((again.status, again.remaining), (first.status, first.remaining));
    assert!(!again.sweep_complete);
    assert_eq!((s.sweeps[0].pending, s.sweeps[0].leased), (41, -4));
    assert_eq!(visit_count(&s, "t"), 1);
}

#[test]
fn unknown_path_message_quotes_its_arguments() {
    let (mut s, cfg) = seeded(1);
    claim_path(&mut s, &cfg, "a1", NOW);
    match s.complete("t", "a\"b\\c/", Some("a1"), WorkStatus::Done, None, None, NOW) {
        Err(Error::NotInSweep(m)) => assert_eq!(
            m,
            "path \"a\\\"b/c\" is not a work item in any sweep of task \"t\" \
             (typo, wrong --task, or excluded by config?)"
        ),
        other => panic!("expected a miss, got {other:?}"),
    }
}

#[test]
fn complete_normalizes_slashes_and_dot_prefix() {
    let mut s = Store::open_in_memory().unwrap();
    let cfg = Config::default();
    s.replace_folders(&named(&["src/api"]), NOW).unwrap();
    next(&mut s, "t", &cfg, Some("a1"), false, NOW);
    // A ./ prefix and backslashes still match the stored "src/api".
    let r = s
        .complete("t", ".\\src\\api", Some("a1"), WorkStatus::Done, None, None, NOW)
        .unwrap();
    assert_eq!(r.path, "src/api");
    assert_eq!(r.status, "done");
    assert!(r.sweep_complete);
}

#[test]
fn sweep_new_refused_while_active() {
    let (mut s, cfg) = seeded(2);
    // Bootstrap sweep 1 and leave it active.
    next(&mut s, "t", &cfg, Some("a1"), false, NOW);
    assert!(matches!(
        s.open_new_sweep("t", &cfg, NOW, &scorer),
        Err(Error::SweepActive(_))
    ));
    // Drain it, then a new sweep is allowed.
    for p in ["dir000", "dir001"] {
        let _ = s.complete("t", p, Some("a1"), WorkStatus::Done, None, None, NOW);
    }
    let info = s.open_new_sweep("t", &cfg, NOW, &scorer).unwrap();
    assert_eq!(info.sweep, 2);
}

#[test]
fn active_sweep_message_names_sweep_and_task() {
    let (mut s, cfg) = seeded(2);
    s.open_new_sweep("re view", &cfg, NOW, &scorer).unwrap();
    match s.open_new_sweep("re view", &cfg, NOW, &scorer) {
        Err(Error::SweepActive(m)) => assert_eq!(
            m,
            "sweep 1 for task \"re view\" is still active; \
             finish or reset it before opening a new sweep"
        ),
        other => panic!("expected a refusal, got {other:?}"),
    }
}

#[test]
fn planning_for_an_unknown_task_is_refused() {
    let (s, cfg) = seeded(2);
    match s.plan_sweep("ghost", &cfg, NOW) {
        Err(Error::Other(m)) => assert_eq!(m, "task \"ghost\" does not exist"),
        other => panic!("expected a refusal, got {other:?}"),
    }
}

#[test]
fn huge_ttl_does_not_overflow_or_self_reclaim() {
    let (mut s, mut cfg) = seeded(1);
    cfg.lease.ttl_secs = i64::MAX;
    match next(&mut s, "t", &cfg, Some("a1"), false, NOW) {
        NextResult::Claimed { lease_expires_at, .. } => assert_eq!(lease_expires_at, i64::MAX),
        other => panic!("expected a folder, got {other:?}"),
    }
    // The lease is not spuriously reclaimed by overflow wrap.
    assert!(matches!(
        next(&mut s, "t", &cfg, Some("a2"), false, NOW + 5),
        NextResult::NoneAvailable { .. }
    ));
}

#[test]
fn skip_reason_is_stored() {
    let (mut s, cfg) = seeded(1);
    let path = claim_path(&mut s, &cfg, "a1", NOW);
    let r = s
        .complete("t", &path, Some("a1"), WorkStatus::Skipped, Some("flaky build"), None, NOW)
        .unwrap();
    assert_eq!(r.status, "skipped");
    assert_eq!(last_visit_reason(&s, "t", &path).as_deref(), Some("flaky build"));
}

#[test]
fn empty_sweep_reports_total_zero_with_note() {
    let mut s = Store::open_in_memory().unwrap();
    let cfg = Config::default();
    match next(&mut s, "t", &cfg, None, false, NOW) {
        NextResult::SweepComplete { covered, total, note, .. } => {
            assert_eq!(covered, 0);
            assert_eq!(total, 0);
            assert!(note.is_some(), "empty sweep should carry a note");
        }
        other => panic!("expected sweep-complete, got {other:?}"),
    }
}

#[test]
fn skip_heavy_sweep_completes_with_zero_percent() {
    let (mut s, _cfg) = seeded(2);
    let covered = drain(&mut s, "t", WorkStatus::Skipped, NOW);
    assert_eq!(covered.len(), 2);
    let st = s.status("t").unwrap();
    assert_eq!(st.skipped, 2);
    assert_eq!(st.done, 0);
    assert_eq!(percent(&st), 0.0);
    assert_eq!(st.sweep_status, "complete");
}

#[test]
fn reset_retains_history_unless_all() {
    let (mut s, _cfg) = seeded(2);
    drain(&mut s, "t", WorkStatus::Done, 100);
    assert!(visit_count(&s, "t") > 0);
    // Plain reset clears the board but keeps the task's memory.
    let r = s.reset("t", false).unwrap();
    assert!(!r.cleared_history);
    assert!(visit_count(&s, "t") > 0, "history retained");
    // reset --all wipes the memory too.
    let r2 = s.reset("t", true).unwrap();
    assert!(r2.cleared_history);
    assert_eq!(visit_count(&s, "t"), 0);
}

#[test]
fn reset_clears_one_task_and_starts_again_at_sweep_one() {
    let (mut s, cfg) = seeded(2);
    drain(&mut s, "t", WorkStatus::Done, NOW);
    s.open_new_sweep("t", &cfg, NOW, &scorer).unwrap();
    drain(&mut s, "u", WorkStatus::Done, NOW);
    let r = s.reset("t", true).unwrap();
    assert_eq!(r.task, "t");
    assert_eq!(r.cleared_sweeps, 2);
    assert_eq!(s.sweep_info("t").unwrap().sweep, 0);
    assert_eq!(s.sweep_info("t").unwrap().sweep_status, "none");
    assert_eq!(s.status("u").unwrap().done, 2);
    assert_eq!(visit_count(&s, "u"), 2);
    assert_eq!(s.open_new_sweep("t", &cfg, NOW, &scorer).unwrap().sweep, 1);
}

#[test]
fn multi_task_isolation_on_one_db() {
    let (mut s, _cfg) = seeded(3);
    drain(&mut s, "A", WorkStatus::Done, NOW); // task A fully covered

    // Task B is independent: its own pending sweep over the same folders.
    let remaining = match next(&mut s, "B", &Config::default(), Some("b"), false, NOW) {
        NextResult::Claimed { remaining, .. } => remaining,
        other => panic!("expected a folder, got {other:?}"),
    };
    assert_eq!(remaining, 2);
    assert_eq!(s.status("A").unwrap().done, 3);
    let b = s.status("B").unwrap();
    assert_eq!(b.done, 0);
    assert_eq!(b.leased, 1);
}

#[test]
fn gc_reclaims_expired_lease_across_sweeps() {
    let (mut s, mut cfg) = seeded(1);
    cfg.lease.ttl_secs = 10;
    next(&mut s, "t", &cfg, Some("a1"), false, NOW);
    // Before expiry: nothing to reclaim.
    assert_eq!(s.gc(NOW + 5).unwrap().reclaimed_leases, 0);
    // After expiry: reclaimed, and the folder is claimable again.
    assert_eq!(s.gc(NOW + 100).unwrap().reclaimed_leases, 1);
    assert!(matches!(
        next(&mut s, "t", &cfg, Some("a2"), false, NOW + 101),
        NextResult::Claimed { .. }
    ));
}

#[test]
fn gc_moves_the_counters_of_every_task() {
    let (mut s, mut cfg) = seeded(4);
    cfg.lease.ttl_secs = 10;
    for task in ["t", "u"] {
        for agent in ["a", "b"] {
            next(&mut s, task, &cfg, Some(agent), false, NOW);
        }
    }
    cfg.lease.ttl_secs = 1000;
    next(&mut s, "t", &cfg, Some("c"), false, NOW);
    assert_eq!(s.gc(NOW + 11).unwrap().reclaimed_leases, 4);
    assert_counters_consistent(&s, "t");
    assert_counters_consistent(&s, "u");
    assert_eq!(s.status("t").unwrap().leased, 1);
    assert_eq!(s.status("u").unwrap().leased, 0);
    assert_eq!(s.gc(NOW + 11).unwrap().reclaimed_leases, 0);
}

#[test]
fn list_orders_by_score_and_filters_by_state() {
    let (mut s, cfg) = seeded(3);
    next(&mut s, "t", &cfg, Some("a1"), false, NOW); // leases one
    let all = s.list("t", None).unwrap();
    assert_eq!(all.len(), 3);
    for w in all.windows(2) {
        let score = |i: usize| f64::from_bits(w[i].score.bits());
        assert!(score(0) >= score(1), "list not sorted by score desc");
    }
    assert_eq!(s.list("t", Some(WorkStatus::Leased)).unwrap().len(), 1);
    assert_eq!(s.list("t", Some(WorkStatus::Pending)).unwrap().len(), 2);
    assert!(s.list("unknown", None).unwrap().is_empty());
}

#[test]
fn list_breaks_equal_scores_by_path() {
    let mut s = Store::open_in_memory().unwrap();
    let cfg = Config::default();
    s.replace_folders(&named(&["b", "a/z", "a", "c", "\u{e9}", "Z"]), NOW).unwrap();
    s.open_new_sweep("t", &cfg, NOW, &(|_e: ScoreExpr| Score { key: 5 })).unwrap();
    let rows = s.list("t", None).unwrap();
    let paths: Vec<&str> = rows.iter().map(|r| r.path.as_str()).collect();
    assert_eq!(paths, ["Z", "a", "a/z", "b", "c", "\u{e9}"]);
    assert!(rows.iter().all(|r| r.status == "pending" && r.lease_owner.is_none()));
}

#[test]
fn a_claim_takes_the_later_of_two_equal_scores() {
    let mut s = Store::open_in_memory().unwrap();
    let cfg = Config::default();
    s.replace_folders(&named(&["a", "b", "c"]), NOW).unwrap();
    s.open_new_sweep("t", &cfg, NOW, &(|_e: ScoreExpr| Score { key: 5 })).unwrap();
    assert_eq!(claim_path(&mut s, &cfg, "x", NOW), "c");
    assert_eq!(claim_path(&mut s, &cfg, "x", NOW), "b");
}

#[test]
fn status_edge_cases() {
    let (mut s, cfg) = seeded(4);
    // No sweep yet under the name.
    let none = s.status("never").unwrap();
    assert_eq!(none.sweep_status, "none");
    assert_eq!(none.total, 0);
    assert_eq!(percent(&none), 0.0);
    // Partial: 1 of 4 done -> 25%.
    next(&mut s, "t", &cfg, Some("a"), false, NOW);
    s.complete("t", "dir000", Some("a"), WorkStatus::Done, None, None, NOW).unwrap();
    let st = s.status("t").unwrap();
    assert_eq!(st.done, 1);
    assert!((percent(&st) - 25.0).abs() < 1e-9);
    assert_eq!(st.sweep_status, "active");
}

#[test]
fn tree_drift_adds_new_folder_on_rescan() {
    let mut s = Store::open_in_memory().unwrap();
    let cfg = Config::default();
    s.replace_folders(&folders(2), NOW).unwrap();
    drain(&mut s, "t", WorkStatus::Done, NOW);
    // The tree grows; a rescan + new sweep includes the newcomer.
    s.replace_folders(&folders(3), NOW + 1).unwrap();
    let info = s.open_new_sweep("t", &cfg, NOW + 1, &scorer).unwrap();
    assert_eq!(info.total, 3);
    let paths: Vec<_> = s.list("t", None).unwrap().into_iter().map(|r| r.path).collect();
    assert!(paths.contains(&"dir002".to_string()));
}

#[test]
fn rescan_leaves_an_open_sweep_alone() {
    let (mut s, cfg) = seeded(2);
    s.open_new_sweep("t", &cfg, NOW, &scorer).unwrap();
    s.replace_folders(&folders(5), NOW + 1).unwrap();
    assert_eq!(s.folder_count().unwrap(), 5);
    assert_eq!(s.status("t").unwrap().total, 2);
    assert_eq!(drain(&mut s, "t", WorkStatus::Done, NOW + 2).len(), 2);
}

#[test]
fn a_folder_named_twice_is_refused() {
    let (mut s, _cfg) = seeded(2);
    match s.replace_folders(&named(&["b", "a", "c", "a", "b"]), NOW) {
        Err(Error::DuplicateFolder(p)) => assert_eq!(p, "a"),
        other => panic!("expected a refusal, got {other:?}"),
    }
    assert_eq!(s.folder_count().unwrap(), 2);
    s.replace_folders(&named(&["b", "a", "c"]), NOW).unwrap();
    assert_eq!(s.folder_count().unwrap(), 3);
}

#[test]
fn random_strategy_is_reproducible_across_stores() {
    let order = || {
        let mut s = Store::open_in_memory().unwrap();
        let mut cfg = Config::default();
        cfg.strategy.default = Strategy::Random;
        cfg.strategy.seed = 12_345;
        s.replace_folders(&folders(6), NOW).unwrap();
        let mut got = Vec::new();
        while let NextResult::Claimed { path, .. } =
            next(&mut s, "t", &cfg, Some("a"), false, NOW)
        {
            done(&mut s, &path, "a", NOW);
            got.push(path);
        }
        got
    };
    assert_eq!(order(), order(), "same seed => same drain order");
}

#[test]
fn strategy_override_persists_on_task() {
    let (mut s, cfg) = seeded(2);
    s.next("t", &cfg, Some("a"), Some(Strategy::Random), false, NOW, &scorer).unwrap();
    let row = s.tasks.iter().find(|r| r.name == "t").unwrap();
    assert_eq!(row.strategy, Strategy::Random);
    // Without an override the task keeps it, whatever the default is.
    next(&mut s, "t", &cfg, Some("a"), false, NOW);
    let row = s.tasks.iter().find(|r| r.name == "t").unwrap();
    assert_eq!(row.strategy, Strategy::Random);
    assert_eq!(row.seed, 42);
    assert_eq!(row.current_sweep, 1);
}

#[test]
fn auto_sweep_rolls_over_a_drained_sweep() {
    let (mut s, cfg) = seeded(2);
    drain(&mut s, "t", WorkStatus::Done, NOW);
    match next(&mut s, "t", &cfg, Some("a"), true, NOW) {
        NextResult::Claimed { sweep, remaining, .. } => {
            assert_eq!(sweep, 2);
            assert_eq!(remaining, 1);
        }
        other => panic!("expected a folder, got {other:?}"),
    }
    let active = s
        .sweeps
        .iter()
        .filter(|r| r.task == "t" && r.status == SweepStatus::Active)
        .count();
    assert_eq!(active, 1);
}

#[test]
fn auto_sweep_on_an_empty_snapshot_flags_it() {
    let (mut s, cfg) = seeded(1);
    drain(&mut s, "t", WorkStatus::Done, NOW);
    s.replace_folders(&[], NOW).unwrap();
    match next(&mut s, "t", &cfg, Some("a"), true, NOW) {
        NextResult::SweepComplete { sweep, covered, total, note, .. } => {
            assert_eq!((sweep, covered, total), (2, 0, 0));
            assert_eq!(
                note.as_deref(),
                Some("no folders registered for this sweep - did you run `trail init`?")
            );
        }
        other => panic!("expected sweep-complete, got {other:?}"),
    }
    assert_eq!(s.sweep_info("t").unwrap().completed_at, Some(NOW));
}

#[test]
fn outcome_feedback_resurfaces_hot_folders() {
    // With outcome_weight > 0 and equal recency/weight, the folder that
    // reported the most findings leads the next sweep.
    let mut s = Store::open_in_memory().unwrap();
    let mut cfg = Config::default();
    cfg.strategy.outcome_weight = binary64(0.6);
    s.replace_folders(&named(&["a", "b", "c"]), 0).unwrap();

    // Sweep 1 at t=100: a is hot (10 findings), b and c are clean.
    next(&mut s, "t", &cfg, Some("x"), false, 100);
    for (p, n) in [("a", 10), ("b", 0), ("c", 0)] {
        s.complete("t", p, Some("x"), WorkStatus::Done, None, Some(n), 100).unwrap();
    }

    // Sweep 2 at the same instant (recency equal): the hot folder leads.
    let first = match next(&mut s, "t", &cfg, Some("x"), true, 100) {
        NextResult::Claimed { path, sweep, .. } => {
            assert_eq!(sweep, 2);
            path
        }
        other => panic!("expected a folder, got {other:?}"),
    };
    assert_eq!(first, "a", "the folder with the most findings should resurface first");
}

#[test]
fn a_plan_reads_the_latest_visit_and_report() {
    let mut s = Store::open_in_memory().unwrap();
    let mut cfg = Config::default();
    cfg.strategy.half_life_secs = 50;
    s.replace_folders(
        &[
            FolderStat { path: "a".into(), file_count: 2, size_bytes: 9, churn: 1 },
            FolderStat { path: "b".into(), file_count: 8, size_bytes: 3, churn: 0 },
        ],
        0,
    )
    .unwrap();
    // Sweep 1: a reports 4 at t=100. Sweep 2: a reports nothing at t=130.
    next(&mut s, "t", &cfg, Some("x"), false, 100);
    s.complete("t", "a", Some("x"), WorkStatus::Done, None, Some(4), 100).unwrap();
    s.complete("t", "b", Some("x"), WorkStatus::Skipped, None, None, 300).unwrap();
    next(&mut s, "t", &cfg, Some("x"), true, 130);
    s.complete("t", "a", Some("x"), WorkStatus::Done, None, None, 130).unwrap();
    s.complete("t", "b", Some("x"), WorkStatus::Done, None, Some(5), 130).unwrap();
    let plan = s.plan_sweep("t", &cfg, 200).unwrap();
    assert_eq!(plan.len(), 2);
    match plan[0] {
        ScoreExpr::Blend { recency, weight, outcome, alpha, .. } => {
            assert_eq!(recency, Recency::Aged { secs: 70, half_life: 50 });
            assert_eq!(weight, Fraction { num: 2, den: 8 });
            assert_eq!(outcome, Fraction { num: 4, den: 5 });
            assert_eq!(number(alpha), 0.6);
        }
        other => panic!("expected a blend, got {other:?}"),
    }
    match plan[1] {
        ScoreExpr::Blend { recency, weight, outcome, .. } => {
            // Visited at t=300, later than now: lowest priority.
            assert_eq!(recency, Recency::Fresh);
            assert_eq!(weight, Fraction { num: 8, den: 8 });
            assert_eq!(outcome, Fraction { num: 5, den: 5 });
        }
        other => panic!("expected a blend, got {other:?}"),
    }
    // The scores are handed in by the caller.
    let scores = vec![Score { key: 1 }, Score { key: 2 }];
    assert_eq!(s.open_sweep_scored("t", 200, &scores).unwrap(), (3, 2));
    assert_eq!(claim_path(&mut s, &cfg, "x", 200), "b");
}

#[test]
fn completion_prefers_the_agents_own_outstanding_row() {
    // Two sweeps hold the path: the older one leased to "old", the newer pending.
    let mut s = Store::open_in_memory().unwrap();
    s.tasks.push(TaskRow {
        name: "t".into(),
        strategy: Strategy::Weighted,
        seed: 1,
        current_sweep: 2,
        created_at: 0,
    });
    for sweep in [1, 2] {
        s.sweeps.push(SweepRow {
            task: "t".into(),
            sweep,
            status: if sweep == 2 { SweepStatus::Active } else { SweepStatus::Complete },
            started_at: 0,
            completed_at: None,
            total: 1,
            pending: if sweep == 2 { 1 } else { 0 },
            leased: if sweep == 1 { 1 } else { 0 },
            done: 0,
            skipped: 0,
        });
        s.work.push(WorkRow {
            task: "t".into(),
            sweep,
            path: "p".into(),
            status: if sweep == 1 { WorkStatus::Leased } else { WorkStatus::Pending },
            score: Score { key: 0 },
            lease_owner: if sweep == 1 { Some("old".into()) } else { None },
            lease_expires_at: if sweep == 1 { Some(NOW) } else { None },
            visited_at: None,
        });
    }
    assert!(s.is_sound());
    let r = s
        .complete("t", "p", Some("old"), WorkStatus::Done, None, None, NOW)
        .unwrap();
    assert_eq!((r.sweep, r.remaining, r.sweep_complete), (1, 0, true));
    let r = s
        .complete("t", "p", Some("new"), WorkStatus::Done, None, None, NOW)
        .unwrap();
    assert_eq!((r.sweep, r.remaining, r.sweep_complete), (2, 0, true));
    assert_eq!(visit_count(&s, "t"), 2);
}

#[test]
fn sweep_counters_stay_consistent_through_transitions() {
    let (mut s, mut cfg) = seeded(6);
    cfg.lease.ttl_secs = 10;
    // done + skipped transitions.
    let p1 = claim_path(&mut s, &cfg, "a", NOW);
    assert_counters_consistent(&s, "t");
    s.complete("t", &p1, Some("a"), WorkStatus::Done, None, Some(3), NOW).unwrap();
    let p2 = claim_path(&mut s, &cfg, "a", NOW);
    s.complete("t", &p2, Some("a"), WorkStatus::Skipped, None, None, NOW).unwrap();
    assert_counters_consistent(&s, "t");
    // Leave a lease, let it expire, reclaim it via next().
    claim_path(&mut s, &cfg, "a", NOW);
    claim_path(&mut s, &cfg, "b", NOW + 100); // reclaims the expired one
    assert_counters_consistent(&s, "t");
    // gc reclaim path.
    claim_path(&mut s, &cfg, "c", NOW + 200);
    s.gc(NOW + 1000).unwrap();
    assert_counters_consistent(&s, "t");
    // Drain the rest, counters still consistent.
    drain(&mut s, "t", WorkStatus::Done, NOW + 2000);
    assert_counters_consistent(&s, "t");
    let st = s.status("t").unwrap();
    assert_eq!(st.pending, 0);
    assert_eq!(st.leased, 0);
    assert_eq!(st.done + st.skipped, 6);
}

#[test]
fn complete_rejects_non_terminal_status() {
    let (mut s, cfg) = seeded(2);
    let p = claim_path(&mut s, &cfg, "a", NOW);
    // A non-terminal status would make the counter move self-cancel; reject it.
    match s.complete("t", &p, Some("a"), WorkStatus::Leased, None, None, NOW) {
        Err(Error::Other(m)) => assert_eq!(
            m,
            "complete() requires a terminal status (done/skipped), got Leased"
        ),
        other => panic!("expected a refusal, got {other:?}"),
    }
    assert!(s.complete("t", &p, Some("a"), WorkStatus::Pending, None, None, NOW).is_err());
    assert_counters_consistent(&s, "t"); // rejected calls left no drift
}

#[test]
fn empty_or_whitespace_task_is_rejected() {
    let mut s = Store::open_in_memory().unwrap();
    let cfg = Config::default();
    s.replace_folders(&folders(1), NOW).unwrap();
    assert!(matches!(
        s.next("", &cfg, Some("a"), None, false, NOW, &scorer),
        Err(Error::Config(_))
    ));
    assert!(matches!(
        s.next("   ", &cfg, Some("a"), None, false, NOW, &scorer),
        Err(Error::Config(_))
    ));
    assert!(matches!(
        s.open_new_sweep("\u{3000}\t", &cfg, NOW, &scorer),
        Err(Error::Config(_))
    ));
    assert_eq!(s.tasks.len(), 0, "no phantom task created");
}

#[test]
fn reconcile_repairs_injected_counter_drift() {
    let (mut s, cfg) = seeded(4);
    claim_path(&mut s, &cfg, "a", NOW);
    for row in s.sweeps.iter_mut() {
        row.pending = 0;
        row.leased = 99;
    }
    s.reconcile().unwrap();
    assert_counters_consistent(&s, "t");
}

#[test]
fn draining_a_sweep_covers_every_folder_exactly_once() {
    for n in 1usize..40 {
        let mut s = Store::open_in_memory().unwrap();
        let cfg = Config::default();
        s.replace_folders(&folders(n), NOW).unwrap();
        let mut seen: Vec<String> = Vec::new();
        loop {
            match next(&mut s, "t", &cfg, Some("a"), false, NOW) {
                NextResult::Claimed { path, .. } => {
                    assert!(!seen.contains(&path), "folder claimed twice: {path}");
                    done(&mut s, &path, "a", NOW);
                    seen.push(path);
                }
                NextResult::SweepComplete { covered, total, .. } => {
                    assert_eq!(covered, n as i64);
                    assert_eq!(total, n as i64);
                    break;
                }
                NextResult::NoneAvailable { .. } => panic!("single agent saw none-available"),
            }
        }
        assert_eq!(seen.len(), n);
        assert_counters_consistent(&s, "t");
    }
}

#[test]
fn unsound_rows_are_told_apart() {
    let (mut s, cfg) = seeded(2);
    claim_path(&mut s, &cfg, "a", NOW);
    assert!(s.is_sound());
    // A counter that is off is repaired, not refused.
    s.sweeps[0].done = 1000;
    assert!(s.is_sound());
    // One that is off beyond all measure and a row without a sweep are.
    s.sweeps[0].done = i64::MAX;
    assert!(!s.is_sound());
    s.sweeps[0].done = 0;
    // A sweep ahead of its task and two active sweeps can be worked on.
    s.tasks[0].current_sweep = 0;
    assert!(s.is_sound());
    s.tasks[0].current_sweep = 1;
    s.sweeps.push(SweepRow {
        task: "t".into(),
        sweep: 0,
        status: SweepStatus::Active,
        started_at: 0,
        completed_at: None,
        total: 0,
        pending: 0,
        leased: 0,
        done: 0,
        skipped: 0,
    });
    assert!(s.is_sound());
    s.work[0].sweep = 7;
    assert!(!s.is_sound());
}

#[test]
fn the_number_of_a_new_sweep_must_be_free() {
    let (mut s, cfg) = seeded(2);
    drain(&mut s, "t", WorkStatus::Done, NOW);
    assert!(s.can_open("t", NOW));
    s.tasks[0].current_sweep = 0;
    assert!(!s.can_open("t", NOW));
    s.tasks[0].current_sweep = 5;
    assert!(s.can_open("t", NOW));
    assert_eq!(s.open_new_sweep("t", &cfg, NOW, &scorer).unwrap().sweep, 6);
}

#[test]
fn of_several_openers_one_succeeds() {
    let (mut s, cfg) = seeded(2);
    assert_eq!(s.open_new_sweep("t", &cfg, NOW, &scorer).unwrap().sweep, 1);
    for later in 1..4 {
        match s.open_new_sweep("t", &cfg, NOW + later, &scorer) {
            Err(Error::SweepActive(m)) => assert_eq!(
                m,
                "sweep 1 for task \"t\" is still active; \
                 finish or reset it before opening a new sweep"
            ),
            other => panic!("expected a refusal, got {other:?}"),
        }
    }
    assert_eq!(s.sweeps.len(), 1);
}

#[test]
fn only_the_completion_that_finishes_a_sweep_says_so() {
    let (mut s, cfg) = seeded(2);
    let first = claim_path(&mut s, &cfg, "a", NOW);
    let second = claim_path(&mut s, &cfg, "b", NOW);
    let mut done = |path: &str, agent: &str, status: WorkStatus, now: i64| {
        let r = s.complete("t", path, Some(agent), status, None, None, now).unwrap();
        (r.status, r.sweep, r.remaining, r.sweep_complete)
    };
    assert_eq!(done(&first, "a", WorkStatus::Done, 100), ("done".to_string(), 1, 1, false));
    assert_eq!(done(&second, "b", WorkStatus::Skipped, 100), ("skipped".to_string(), 1, 0, true));
    // Again, by whomever and however: nothing is finished once more.
    assert_eq!(done(&second, "a", WorkStatus::Done, 200), ("skipped".to_string(), 1, 0, false));
    assert_eq!(done(&first, "b", WorkStatus::Skipped, 200), ("done".to_string(), 1, 0, false));
    assert_eq!(s.sweeps[0].completed_at, Some(100));
    assert_eq!(visit_count(&s, "t"), 2);
}

#[test]
fn remaining_counts_down_while_a_sweep_is_drained() {
    let (mut s, cfg) = seeded(4);
    for left in [3, 2, 1, 0] {
        match s.next("t", &cfg, Some("a"), None, false, NOW, &scorer).unwrap() {
            NextResult::Claimed { path, remaining, .. } => {
                assert_eq!(remaining, left);
                let r = s
                    .complete("t", &path, Some("a"), WorkStatus::Done, None, None, NOW)
                    .unwrap();
                assert_eq!((r.remaining, r.sweep_complete), (left, left == 0));
            }
            other => panic!("expected a claim, got {other:?}"),
        }
    }
    assert!(matches!(
        s.next("t", &cfg, Some("a"), None, false, NOW, &scorer).unwrap(),
        NextResult::SweepComplete { sweep: 1, covered: 4, total: 4, note: None, .. }
    ));
}

#[test]
fn priorities_stay_frozen() {
    let (mut s, cfg) = seeded(3);
    claim_path(&mut s, &cfg, "a", NOW);
    let board = |s: &Store| -> Vec<(String, Score)> {
        s.work.iter().filter(|w| w.sweep == 1).map(|w| (w.path.clone(), w.score)).collect()
    };
    let frozen = board(&s);
    s.next("t", &cfg, Some("b"), Some(Strategy::Random), false, NOW, &scorer).unwrap();
    s.next("u", &cfg, None, None, true, NOW, &scorer).unwrap();
    s.gc(NOW + 10_000).unwrap();
    s.reconcile().unwrap();
    s.replace_folders(&[], NOW).unwrap();
    s.reset("u", true).unwrap();
    drain(&mut s, "t", WorkStatus::Done, NOW);
    assert_eq!(board(&s), frozen);
}

#[test]
fn a_sweep_without_room_is_seen_beforehand() {
    let (mut s, _) = seeded(2);
    assert!(s.can_open("t", NOW));
    drain(&mut s, "t", WorkStatus::Done, NOW);
    assert!(s.can_open("t", NOW));
    // The time since the last visit would not fit.
    assert!(!s.can_open("t", i64::MIN));
    assert!(s.can_open("u", i64::MIN));
    s.tasks[0].current_sweep = i64::MAX;
    assert!(!s.can_open("t", NOW));
}

#[test]
fn folders_keep_the_scan_time() {
    let (s, _cfg) = seeded(2);
    let times: Vec<i64> = s.folders.iter().map(|f: &FolderRow| f.scanned_at).collect();
    assert_eq!(times, [NOW, NOW]);
}

#[test]
fn v2_migration_backfills_counters_on_legacy_db() {
    // A sweep without counters, and without a task row, over a mixed board.
    let mut s = Store::open_in_memory().unwrap();
    s.sweeps.push(SweepRow {
        task: "t".into(),
        sweep: 1,
        status: SweepStatus::Active,
        started_at: 0,
        completed_at: None,
        total: 0,
        pending: 0,
        leased: 0,
        done: 0,
        skipped: 0,
    });
    for (path, status, owner, expires, visited) in [
        ("a", WorkStatus::Pending, None, None, None),
        ("b", WorkStatus::Leased, Some("x"), Some(999), None),
        ("c", WorkStatus::Done, None, None, Some(0)),
    ] {
        s.work.push(WorkRow {
            task: "t".into(),
            sweep: 1,
            path: path.into(),
            status,
            score: Score::from_bits(1.0f64.to_bits()),
            lease_owner: owner.map(|o: &str| o.to_string()),
            lease_expires_at: expires,
            visited_at: visited,
        });
    }
    s.reconcile().unwrap();
    assert_counters_consistent(&s, "t");
    let st = s.status("t").unwrap();
    assert_eq!((st.total, st.pending, st.leased, st.done), (3, 1, 1, 1));
    // Doing it again changes nothing.
    s.reconcile().unwrap();
    assert_counters_consistent(&s, "t");
}

#[test]
fn a_claim_changes_one_row_and_frees_the_expired() {
    let (mut s, mut cfg) = seeded(4);
    cfg.lease.ttl_secs = 10;
    let first = claim_path(&mut s, &cfg, "a", NOW);
    cfg.lease.ttl_secs = 1000;
    let second = claim_path(&mut s, &cfg, "b", NOW);
    let third = claim_path(&mut s, &cfg, "c", NOW + 11);
    // The expired lease had the highest score, so it is handed out again.
    assert_eq!(third, first);
    for w in &s.work {
        let owner = w.lease_owner.as_deref();
        if w.path == first {
            assert_eq!((w.status, owner), (WorkStatus::Leased, Some("c")));
            assert_eq!(w.lease_expires_at, Some(NOW + 1011));
        } else if w.path == second {
            assert_eq!((w.status, owner), (WorkStatus::Leased, Some("b")));
        } else {
            assert_eq!((w.status, owner), (WorkStatus::Pending, None));
        }
    }
}

#[test]
fn scores_descend_through_a_sweep() {
    let (mut s, cfg) = seeded(12);
    let mut last = f64::INFINITY;
    while let NextResult::Claimed { score, .. } = next(&mut s, "t", &cfg, Some("a"), false, NOW) {
        let x = f64::from_bits(score.bits());
        assert!(x <= last);
        last = x;
    }
}

#[test]
fn memory_is_per_task_and_survives_a_reset() {
    let mut s = Store::open_in_memory().unwrap();
    let mut cfg = Config::default();
    cfg.strategy.default = Strategy::RoundRobin;
    s.replace_folders(&named(&["a", "b"]), 0).unwrap();
    next(&mut s, "t", &cfg, Some("x"), false, 100);
    s.complete("t", "a", Some("x"), WorkStatus::Done, None, None, 100).unwrap();
    s.reset("t", false).unwrap();
    let recencies = |s: &Store, task: &str| -> Vec<Recency> {
        s.plan_sweep(task, &Config::default(), 150)
            .unwrap()
            .into_iter()
            .map(|e| match e {
                ScoreExpr::LeastRecent { recency, .. } => recency,
                other => panic!("expected round-robin, got {other:?}"),
            })
            .collect()
    };
    let aged = Recency::Aged { secs: 50, half_life: 604_800 };
    assert_eq!(recencies(&s, "t"), [aged, Recency::Never]);
    next(&mut s, "u", &cfg, Some("x"), false, 120);
    s.reset("u", false).unwrap();
    assert_eq!(recencies(&s, "u"), [Recency::Never, Recency::Never]);
    s.reset("t", true).unwrap();
    assert_eq!(recencies(&s, "t"), [Recency::Never, Recency::Never]);
}

#[test]
fn done_covers_the_claimed_row_of_the_newest_sweep() {
    let (mut s, cfg) = seeded(2);
    drain(&mut s, "t", WorkStatus::Done, NOW);
    let path = match next(&mut s, "t", &cfg, Some("a"), true, NOW) {
        NextResult::Claimed { path, .. } => path,
        other => panic!("expected a folder, got {other:?}"),
    };
    let r = s
        .complete("t", &path, Some("a"), WorkStatus::Skipped, Some("r"), Some(2), NOW + 3)
        .unwrap();
    assert_eq!((r.sweep, r.status.as_str(), r.remaining), (2, "skipped", 1));
    let v = s.visits.last().unwrap();
    assert_eq!((v.path.as_str(), v.sweep, v.visited_at), (path.as_str(), 2, NOW + 3));
    assert_eq!((v.agent.as_deref(), v.reason.as_deref(), v.outcome), (Some("a"), Some("r"), Some(2)));
}
