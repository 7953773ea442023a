//! The library's error type. Each variant carries what its message says.

use vstd::prelude::*;
use crate::model::Real;
use crate::text;

verus! {

/// What is wrong with a setting.
#[derive(Debug, Clone, Copy, PartialEq, Eq, Structural)]
pub enum ConfigIssue {
    /// `lease.ttl_secs` is not positive.
    Ttl(i64),
    /// `strategy.alpha` is not between 0 and 1.
    Alpha(Real),
    /// `strategy.half_life_secs` is zero.
    HalfLife,
    /// `strategy.outcome_weight` is not between 0 and 1.
    OutcomeWeight(Real),
    /// The task has no name.
    EmptyTask,
}

impl ConfigIssue {
    /// What [`ConfigIssue::message`] says.
    pub open spec fn message_text(self, number: Seq<char>) -> Seq<char> {
        match self {
            ConfigIssue::Ttl(secs) => "lease.ttl_secs must be > 0 (got "@ + text::decimal_text(
                secs as int,
            ) + ")"@,
            ConfigIssue::Alpha(_) => "strategy.alpha must be between 0.0 and 1.0 (got "@ + number
                + ")"@,
            ConfigIssue::HalfLife => "strategy.half_life_secs must be >= 1"@,
            ConfigIssue::OutcomeWeight(_) =>
                "strategy.outcome_weight must be between 0.0 and 1.0 (got "@ + number + ")"@,
            ConfigIssue::EmptyTask => "--task must not be empty"@,
        }
    }

    /// The message for the user. `number` is the decimal form of the offending
    /// real number, which only `Alpha` and `OutcomeWeight` have.
    pub fn message(&self, number: &str) -> (r: String)
        ensures
            r@ == self.message_text(number@),
    {
        match self {
            ConfigIssue::Ttl(secs) => {
                let head = text::join(
                    "lease.ttl_secs must be > 0 (got ",
                    text::decimal(*secs).as_str(),
                );
                text::join(head.as_str(), ")")
            },
            ConfigIssue::Alpha(_) => {
                let head = text::join("strategy.alpha must be between 0.0 and 1.0 (got ", number);
                text::join(head.as_str(), ")")
            },
            ConfigIssue::HalfLife => "strategy.half_life_secs must be >= 1".to_owned(),
            ConfigIssue::OutcomeWeight(_) => {
                let head = text::join(
                    "strategy.outcome_weight must be between 0.0 and 1.0 (got ",
                    number,
                );
                text::join(head.as_str(), ")")
            },
            ConfigIssue::EmptyTask => "--task must not be empty".to_owned(),
        }
    }
}

/// The library's errors.
#[derive(Debug)]
pub enum Error {
    /// A setting or a task name is not acceptable.
    Config(ConfigIssue),
    /// A glob of the configuration was refused.
    Walk(String),
    /// A done/skip targeted a path that is not a work item in any sweep
    /// (typo, wrong task, or excluded by config).
    NotInSweep(String),
    /// `sweep new` was asked to open a sweep while one is still active.
    SweepActive(String),
    /// A folder was registered twice in one snapshot.
    DuplicateFolder(String),
    /// Anything else.
    Other(String),
}

/// View of an [`Error`].
#[verifier::ext_equal]
pub enum ErrorView {
    Config(ConfigIssue),
    Walk(Seq<char>),
    NotInSweep(Seq<char>),
    SweepActive(Seq<char>),
    DuplicateFolder(Seq<char>),
    Other(Seq<char>),
}

impl View for Error {
    type V = ErrorView;

    open spec fn view(&self) -> ErrorView {
        match *self {
            Error::Config(issue) => ErrorView::Config(issue),
            Error::Walk(m) => ErrorView::Walk(m@),
            Error::NotInSweep(m) => ErrorView::NotInSweep(m@),
            Error::SweepActive(m) => ErrorView::SweepActive(m@),
            Error::DuplicateFolder(m) => ErrorView::DuplicateFolder(m@),
            Error::Other(m) => ErrorView::Other(m@),
        }
    }
}

// --- laws --------------------------------------------------------------------------

/// What is said of a setting names it, says what it has to be, and what it is.
pub proof fn law_messages_name_the_setting(secs: i64, r: Real, number: Seq<char>)
    ensures
        ConfigIssue::Ttl(secs).message_text(number) == "lease.ttl_secs must be > 0 (got "@
            + text::decimal_text(secs as int) + ")"@,
        ConfigIssue::Alpha(r).message_text(number)
            == "strategy.alpha must be between 0.0 and 1.0 (got "@ + number + ")"@,
        ConfigIssue::HalfLife.message_text(number) == "strategy.half_life_secs must be >= 1"@,
        ConfigIssue::OutcomeWeight(r).message_text(number)
            == "strategy.outcome_weight must be between 0.0 and 1.0 (got "@ + number + ")"@,
        ConfigIssue::EmptyTask.message_text(number) == "--task must not be empty"@,
{
}

/// An error is known by its kind and what it carries.
pub proof fn law_errors_are_told_apart(e: Error)
    ensures
        match e {
            Error::Config(issue) => e@ matches ErrorView::Config(x) && x == issue,
            Error::Walk(m) => e@ matches ErrorView::Walk(x) && x == m@,
            Error::NotInSweep(m) => e@ matches ErrorView::NotInSweep(x) && x == m@,
            Error::SweepActive(m) => e@ matches ErrorView::SweepActive(x) && x == m@,
            Error::DuplicateFolder(m) => e@ matches ErrorView::DuplicateFolder(x) && x == m@,
            Error::Other(m) => e@ matches ErrorView::Other(x) && x == m@,
        },
{
}

}
