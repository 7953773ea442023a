//! Settings, their validation, and the names of strategies and statuses.

use trail::{Config, ConfigIssue, Error, FolderStat, Real, StaticSignal, Strategy, WorkStatus};

fn binary64(x: f64) -> Real {
    Real { bits: x.to_bits() }
}

fn number(r: Real) -> f64 {
    f64::from_bits(r.bits)
}

#[test]
fn defaults_are_sane() {
    let c = Config::default();
    assert_eq!(c.strategy.default, Strategy::Weighted);
    assert_eq!(number(c.strategy.alpha), 0.6);
    assert_eq!(c.lease.ttl_secs, 900);
    assert_eq!(c.scan.min_files, 1);
    assert!(c.scan.respect_gitignore);
    assert!(c.include_is_catch_all());
    assert_eq!(c.strategy.seed, 42);
    assert_eq!(c.strategy.half_life_secs, 604_800);
    assert_eq!(number(c.strategy.outcome_weight), 0.0);
    assert_eq!(c.strategy.static_signal, StaticSignal::FileCount);
}

#[test]
fn defaults_validate() {
    assert!(Config::default().validate().is_ok());
}

#[test]
fn validate_rejects_bad_values() {
    let bad_ttl = |secs: i64| {
        let mut c = Config::default();
        c.lease.ttl_secs = secs;
        c
    };
    assert!(matches!(bad_ttl(0).validate(), Err(Error::Config(_))));
    assert!(matches!(bad_ttl(-100).validate(), Err(Error::Config(_))));

    let mut a = Config::default();
    a.strategy.alpha = binary64(2.5);
    assert!(matches!(a.validate(), Err(Error::Config(_))));
    a.strategy.alpha = binary64(-1.0);
    assert!(matches!(a.validate(), Err(Error::Config(_))));

    let mut hl = Config::default();
    hl.strategy.half_life_secs = 0;
    assert!(matches!(hl.validate(), Err(Error::Config(_))));
}

#[test]
fn validate_names_the_first_bad_setting() {
    let issue = |c: &Config| match c.validate() {
        Err(Error::Config(i)) => i,
        other => panic!("expected a config error, got {other:?}"),
    };
    let mut c = Config::default();
    c.strategy.outcome_weight = binary64(1.5);
    assert_eq!(issue(&c), ConfigIssue::OutcomeWeight(binary64(1.5)));
    c.strategy.half_life_secs = 0;
    assert_eq!(issue(&c), ConfigIssue::HalfLife);
    c.strategy.alpha = binary64(f64::NAN);
    assert_eq!(issue(&c), ConfigIssue::Alpha(binary64(f64::NAN)));
    c.lease.ttl_secs = 0;
    assert_eq!(issue(&c), ConfigIssue::Ttl(0));
}

#[test]
fn bad_config_ttl_exits_error() {
    let mut c = Config::default();
    c.lease.ttl_secs = -100;
    match c.validate() {
        Err(Error::Config(issue)) => {
            assert!(issue.message("").contains("ttl_secs"));
            assert_eq!(issue.message(""), "lease.ttl_secs must be > 0 (got -100)");
        }
        other => panic!("expected a config error, got {other:?}"),
    }
}

#[test]
fn issue_messages() {
    assert_eq!(
        ConfigIssue::Alpha(binary64(2.5)).message("2.5"),
        "strategy.alpha must be between 0.0 and 1.0 (got 2.5)"
    );
    assert_eq!(
        ConfigIssue::OutcomeWeight(binary64(-1.0)).message("-1"),
        "strategy.outcome_weight must be between 0.0 and 1.0 (got -1)"
    );
    assert_eq!(ConfigIssue::HalfLife.message(""), "strategy.half_life_secs must be >= 1");
    assert_eq!(ConfigIssue::EmptyTask.message(""), "--task must not be empty");
    assert_eq!(
        ConfigIssue::Ttl(i64::MIN).message(""),
        "lease.ttl_secs must be > 0 (got -9223372036854775808)"
    );
}

#[test]
fn the_unit_interval_is_that_of_the_numbers() {
    for x in [
        f64::NEG_INFINITY,
        -1.0,
        -5e-324,
        -0.0,
        0.0,
        5e-324,
        0.999,
        1.0,
        1.0000000000000002,
        f64::INFINITY,
        f64::NAN,
        -f64::NAN,
    ] {
        assert_eq!(binary64(x).is_in_unit_interval(), (0.0..=1.0).contains(&x), "{x}");
    }
}

#[test]
fn include_catch_all_variants() {
    let mut c = Config::default();
    assert!(c.include_is_catch_all());
    c.scan.includes = vec!["**".to_string()];
    assert!(c.include_is_catch_all());
    c.scan.includes = vec![];
    assert!(c.include_is_catch_all());
    c.scan.includes = vec!["src/**".to_string()];
    assert!(!c.include_is_catch_all());
    c.scan.includes = vec!["**/*".to_string(), "**".to_string()];
    assert!(!c.include_is_catch_all());
}

#[test]
fn names_read_back() {
    for s in [Strategy::RoundRobin, Strategy::Weighted, Strategy::Random] {
        assert_eq!(Strategy::from_db(s.as_str()), s);
    }
    assert_eq!(Strategy::RoundRobin.as_str(), "round-robin");
    assert_eq!(Strategy::from_db("nonsense"), Strategy::Weighted);
    for s in [WorkStatus::Pending, WorkStatus::Leased, WorkStatus::Done, WorkStatus::Skipped] {
        assert_eq!(WorkStatus::from_db(s.as_str()), Some(s));
    }
    assert_eq!(WorkStatus::from_db("Done"), None);
    assert!(WorkStatus::Done.is_terminal() && WorkStatus::Skipped.is_terminal());
    assert!(!WorkStatus::Pending.is_terminal() && !WorkStatus::Leased.is_terminal());
}

#[test]
fn a_folder_has_the_configured_signal() {
    let f = FolderStat { path: "p".into(), file_count: 1, size_bytes: 2, churn: 3 };
    assert_eq!(f.signal(StaticSignal::FileCount), 1);
    assert_eq!(f.signal(StaticSignal::SizeBytes), 2);
    assert_eq!(f.signal(StaticSignal::Churn), 3);
}
