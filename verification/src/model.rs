//! Shared types: the enums, what a scan reports, and the results of the
//! commands. Every result has a view in which its texts are sequences of
//! characters; the contracts of the store speak of those views.

use vstd::prelude::*;
use crate::text;

verus! {

/// Ordering policy applied when a sweep is opened. All three drain a one-pass
/// coverage board; they only differ in the order folders are handed out.
#[derive(Debug, Clone, Copy, PartialEq, Eq, Structural)]
pub enum Strategy {
    /// Pure least-recently-visited-first (equal static weight).
    RoundRobin,
    /// Blend of recency and static weight (see [`crate::scheduler`]).
    Weighted,
    /// Seeded, reproducible pseudo-random order.
    Random,
}

impl Strategy {
    /// The stable name of the strategy.
    pub open spec fn name(self) -> Seq<char> {
        match self {
            Strategy::RoundRobin => "round-robin"@,
            Strategy::Weighted => "weighted"@,
            Strategy::Random => "random"@,
        }
    }

    /// The strategy of a stored name; an unknown name stands for `Weighted`.
    pub open spec fn named(s: Seq<char>) -> Strategy {
        if s == "round-robin"@ {
            Strategy::RoundRobin
        } else if s == "random"@ {
            Strategy::Random
        } else {
            Strategy::Weighted
        }
    }

    /// Stable string used in the database and CLI.
    pub fn as_str(&self) -> (r: &'static str)
        ensures
            r@ == self.name(),
    {
        match self {
            Strategy::RoundRobin => "round-robin",
            Strategy::Weighted => "weighted",
            Strategy::Random => "random",
        }
    }

    /// Parse the database/CLI string form. Unknown values fall back to weighted.
    pub fn from_db(s: &str) -> (r: Strategy)
        ensures
            r == Strategy::named(s@),
    {
        if text::same(s, "round-robin") {
            Strategy::RoundRobin
        } else if text::same(s, "random") {
            Strategy::Random
        } else {
            Strategy::Weighted
        }
    }
}

/// Which static signal becomes a folder's weight.
#[derive(Debug, Clone, Copy, PartialEq, Eq, Structural)]
pub enum StaticSignal {
    FileCount,
    SizeBytes,
    Churn,
}

impl StaticSignal {
    /// The one of three signal values that is configured.
    pub open spec fn of(self, file_count: i64, size_bytes: i64, churn: i64) -> i64 {
        match self {
            StaticSignal::FileCount => file_count,
            StaticSignal::SizeBytes => size_bytes,
            StaticSignal::Churn => churn,
        }
    }
}

/// The configured one of a folder's three signals.
pub fn pick_signal(signal: StaticSignal, file_count: i64, size_bytes: i64, churn: i64) -> (r: i64)
    ensures
        r == signal.of(file_count, size_bytes, churn),
{
    match signal {
        StaticSignal::FileCount => file_count,
        StaticSignal::SizeBytes => size_bytes,
        StaticSignal::Churn => churn,
    }
}

/// Per-folder static signals captured during a scan.
#[derive(Debug)]
pub struct FolderStat {
    /// Repo-relative folder path (the root folder is ".").
    pub path: String,
    /// Files directly contained in this folder (not recursive).
    pub file_count: i64,
    /// Sum of the direct files' sizes in bytes.
    pub size_bytes: i64,
    /// Git churn: how many recent file changes fell into this folder.
    pub churn: i64,
}

/// View of a [`FolderStat`].
#[verifier::ext_equal]
pub struct FolderView {
    pub path: Seq<char>,
    pub file_count: i64,
    pub size_bytes: i64,
    pub churn: i64,
}

impl FolderView {
    /// The folder's raw signal value.
    pub open spec fn signal(self, signal: StaticSignal) -> i64 {
        signal.of(self.file_count, self.size_bytes, self.churn)
    }
}

impl View for FolderStat {
    type V = FolderView;

    open spec fn view(&self) -> FolderView {
        FolderView {
            path: self.path@,
            file_count: self.file_count,
            size_bytes: self.size_bytes,
            churn: self.churn,
        }
    }
}

impl FolderStat {
    /// The raw signal value for the configured [`StaticSignal`].
    pub fn signal(&self, signal: StaticSignal) -> (r: i64)
        ensures
            r == self@.signal(signal),
    {
        pick_signal(signal, self.file_count, self.size_bytes, self.churn)
    }
}

impl Clone for FolderStat {
    fn clone(&self) -> (r: Self)
        ensures
            r@ == self@,
    {
        FolderStat {
            path: self.path.clone(),
            file_count: self.file_count,
            size_bytes: self.size_bytes,
            churn: self.churn,
        }
    }
}

/// Terminal-or-not state of a folder within a single sweep.
#[derive(Debug, Clone, Copy, PartialEq, Eq, Structural)]
pub enum WorkStatus {
    Pending,
    Leased,
    Done,
    Skipped,
}

impl WorkStatus {
    /// The stable name of the status.
    pub open spec fn name(self) -> Seq<char> {
        match self {
            WorkStatus::Pending => "pending"@,
            WorkStatus::Leased => "leased"@,
            WorkStatus::Done => "done"@,
            WorkStatus::Skipped => "skipped"@,
        }
    }

    /// The status of a stored name, if it is one.
    pub open spec fn named(s: Seq<char>) -> Option<WorkStatus> {
        if s == "pending"@ {
            Some(WorkStatus::Pending)
        } else if s == "leased"@ {
            Some(WorkStatus::Leased)
        } else if s == "done"@ {
            Some(WorkStatus::Done)
        } else if s == "skipped"@ {
            Some(WorkStatus::Skipped)
        } else {
            None
        }
    }

    /// A folder in this state is covered and never handed out again.
    pub open spec fn terminal(self) -> bool {
        self == WorkStatus::Done || self == WorkStatus::Skipped
    }

    /// A folder in this state is still to be covered.
    pub open spec fn outstanding(self) -> bool {
        !self.terminal()
    }

    /// Stable string used in the database and CLI.
    pub fn as_str(&self) -> (r: &'static str)
        ensures
            r@ == self.name(),
    {
        match self {
            WorkStatus::Pending => "pending",
            WorkStatus::Leased => "leased",
            WorkStatus::Done => "done",
            WorkStatus::Skipped => "skipped",
        }
    }

    /// Parse the database/CLI string form; an unknown value is none.
    pub fn from_db(s: &str) -> (r: Option<WorkStatus>)
        ensures
            r == WorkStatus::named(s@),
    {
        if text::same(s, "pending") {
            Some(WorkStatus::Pending)
        } else if text::same(s, "leased") {
            Some(WorkStatus::Leased)
        } else if text::same(s, "done") {
            Some(WorkStatus::Done)
        } else if text::same(s, "skipped") {
            Some(WorkStatus::Skipped)
        } else {
            None
        }
    }

    /// Whether a folder in this state is covered.
    pub fn is_terminal(&self) -> (r: bool)
        ensures
            r == self.terminal(),
    {
        *self == WorkStatus::Done || *self == WorkStatus::Skipped
    }
}

/// State of a sweep.
#[derive(Debug, Clone, Copy, PartialEq, Eq, Structural)]
pub enum SweepStatus {
    Active,
    Complete,
}

impl SweepStatus {
    /// The stable name of the state.
    pub open spec fn name(self) -> Seq<char> {
        match self {
            SweepStatus::Active => "active"@,
            SweepStatus::Complete => "complete"@,
        }
    }

    /// Stable string used in the database and CLI.
    pub fn as_str(&self) -> (r: &'static str)
        ensures
            r@ == self.name(),
    {
        match self {
            SweepStatus::Active => "active",
            SweepStatus::Complete => "complete",
        }
    }
}

/// An IEEE 754 binary64 number, held by its bit pattern.
#[derive(Debug, Clone, Copy, PartialEq, Eq, Structural)]
pub struct Real {
    pub bits: u64,
}

/// Bit pattern of the number 1.
pub const ONE_BITS: u64 = 0x3FF0_0000_0000_0000;

/// Bit pattern of negative zero: the sign bit alone.
pub const SIGN_BIT: u64 = 0x8000_0000_0000_0000;

/// Bit pattern of positive infinity, the last of a number that is not negative.
pub const INFINITE_BITS: u64 = 0x7FF0_0000_0000_0000;

/// Bit pattern of negative infinity, the last of a negative number.
pub const MINUS_INFINITE_BITS: u64 = 0xFFF0_0000_0000_0000;

impl Real {
    /// The number lies in the closed interval from 0 to 1. The patterns of the
    /// numbers from 0 up to 1 are the ones up to that of 1; negative zero
    /// equals zero; not-a-number lies in no interval.
    pub open spec fn in_unit_interval(self) -> bool {
        self.bits <= ONE_BITS || self.bits == SIGN_BIT
    }

    /// The number held between 0 and 1: zero in place of a negative one, and one
    /// in place of a greater one. Not-a-number stays what it is.
    pub open spec fn held(self) -> Real {
        if ONE_BITS < self.bits <= INFINITE_BITS {
            Real { bits: ONE_BITS }
        } else if SIGN_BIT < self.bits <= MINUS_INFINITE_BITS {
            Real { bits: 0 }
        } else {
            self
        }
    }

    /// The number held between 0 and 1.
    pub fn clamp_unit(&self) -> (r: Real)
        ensures
            r == self.held(),
            self.in_unit_interval() ==> r == *self,
    {
        if ONE_BITS < self.bits && self.bits <= INFINITE_BITS {
            Real { bits: ONE_BITS }
        } else if SIGN_BIT < self.bits && self.bits <= MINUS_INFINITE_BITS {
            Real { bits: 0 }
        } else {
            *self
        }
    }

    /// Whether the number lies between 0 and 1.
    pub fn is_in_unit_interval(&self) -> (r: bool)
        ensures
            r == self.in_unit_interval(),
    {
        self.bits <= ONE_BITS || self.bits == SIGN_BIT
    }
}

/// A folder's priority in a sweep: a binary64 number held by an integer that
/// orders as the number does, so that a higher key is handed out first.
#[derive(Debug, Clone, Copy, PartialEq, Eq, PartialOrd, Ord, Structural)]
pub struct Score {
    pub key: i64,
}

impl Score {
    /// The order key of a bit pattern: patterns with the sign bit clear keep
    /// their order, those with it set come before them, in reverse.
    pub open spec fn key_of(bits: u64) -> int {
        if bits < SIGN_BIT {
            bits as int
        } else {
            SIGN_BIT - bits - 1
        }
    }

    /// The bit pattern whose key this is.
    pub open spec fn pattern(self) -> int {
        if self.key >= 0 {
            self.key as int
        } else {
            SIGN_BIT - self.key - 1
        }
    }

    /// The score of the number with this bit pattern.
    pub fn from_bits(bits: u64) -> (r: Score)
        ensures
            r.key == Score::key_of(bits),
    {
        if bits < SIGN_BIT {
            Score { key: bits as i64 }
        } else {
            Score { key: -((bits - SIGN_BIT) as i64) - 1 }
        }
    }

    /// The bit pattern of the number that is the score.
    pub fn bits(&self) -> (r: u64)
        ensures
            r == self.pattern(),
    {
        if self.key >= 0 {
            self.key as u64
        } else {
            SIGN_BIT + (-(self.key + 1)) as u64
        }
    }
}

// --- Command results ---------------------------------------------------------

/// Result of `trail init`.
#[derive(Debug, Clone, Copy, PartialEq, Eq, Structural)]
pub struct InitResult {
    /// Folders registered in the snapshot (meeting `min_files`).
    pub folders: usize,
    /// Directories encountered that did not qualify (below `min_files`).
    pub excluded: usize,
    /// True if a `.trail.toml.example` was written this run.
    pub wrote_example_config: bool,
}

/// Result of `trail next`. The variant drives the process exit code.
#[derive(Debug)]
pub enum NextResult {
    /// A folder was leased to the caller.
    Claimed {
        task: String,
        sweep: i64,
        path: String,
        score: Score,
        /// Unix seconds at which the lease expires if not completed.
        lease_expires_at: i64,
        /// Pending folders still waiting after this claim.
        remaining: i64,
    },
    /// No pending folders right now, but other agents still hold leases.
    /// The caller should briefly wait and retry.
    NoneAvailable { task: String, sweep: i64, leased_outstanding: i64 },
    /// Every folder in the sweep is done/skipped. The outer loop owns starting
    /// the next sweep (`trail sweep new`, or pass `--auto-sweep`).
    SweepComplete {
        task: String,
        sweep: i64,
        /// Folders covered (done) in the completed sweep.
        covered: i64,
        /// Total folders in the sweep. `total == 0` means nothing was
        /// registered (likely a missing `trail init`), not real completion.
        total: i64,
        /// Present only when something looks off (e.g. an empty sweep).
        note: Option<String>,
    },
}

/// View of a [`NextResult`].
#[verifier::ext_equal]
pub enum NextView {
    Claimed {
        task: Seq<char>,
        sweep: i64,
        path: Seq<char>,
        score: Score,
        lease_expires_at: i64,
        remaining: int,
    },
    NoneAvailable { task: Seq<char>, sweep: i64, leased_outstanding: int },
    SweepComplete {
        task: Seq<char>,
        sweep: i64,
        covered: int,
        total: int,
        note: Option<Seq<char>>,
    },
}

impl View for NextResult {
    type V = NextView;

    open spec fn view(&self) -> NextView {
        match *self {
            NextResult::Claimed { task, sweep, path, score, lease_expires_at, remaining } =>
                NextView::Claimed {
                    task: task@,
                    sweep,
                    path: path@,
                    score,
                    lease_expires_at,
                    remaining: remaining as int,
                },
            NextResult::NoneAvailable { task, sweep, leased_outstanding } =>
                NextView::NoneAvailable {
                    task: task@,
                    sweep,
                    leased_outstanding: leased_outstanding as int,
                },
            NextResult::SweepComplete { task, sweep, covered, total, note } =>
                NextView::SweepComplete {
                    task: task@,
                    sweep,
                    covered: covered as int,
                    total: total as int,
                    note: owned_text(note),
                },
        }
    }
}

/// View of an optional owned text.
pub open spec fn owned_text(s: Option<String>) -> Option<Seq<char>> {
    match s {
        Some(t) => Some(t@),
        None => None,
    }
}

/// View of an optional borrowed text.
pub open spec fn lent_text(s: Option<&str>) -> Option<Seq<char>> {
    match s {
        Some(t) => Some(t@),
        None => None,
    }
}

/// Result of `trail done` / `trail skip`.
#[derive(Debug)]
pub struct CompleteResult {
    /// "done" or "skipped".
    pub status: String,
    pub task: String,
    pub sweep: i64,
    pub path: String,
    /// Pending + leased folders still outstanding in the sweep.
    pub remaining: i64,
    /// True if this completion finished the sweep.
    pub sweep_complete: bool,
}

/// View of a [`CompleteResult`].
#[verifier::ext_equal]
pub struct CompleteView {
    pub status: Seq<char>,
    pub task: Seq<char>,
    pub sweep: i64,
    pub path: Seq<char>,
    pub remaining: int,
    pub sweep_complete: bool,
}

impl View for CompleteResult {
    type V = CompleteView;

    open spec fn view(&self) -> CompleteView {
        CompleteView {
            status: self.status@,
            task: self.task@,
            sweep: self.sweep,
            path: self.path@,
            remaining: self.remaining as int,
            sweep_complete: self.sweep_complete,
        }
    }
}

/// A percentage that is left undivided: `100 * part / whole`.
#[derive(Debug, Clone, Copy, PartialEq, Eq, Structural)]
pub struct Percent {
    pub part: i64,
    pub whole: i64,
}

/// Result of `trail status`.
#[derive(Debug)]
pub struct StatusReport {
    pub task: String,
    pub sweep: i64,
    /// "active", "complete" or "none".
    pub sweep_status: String,
    pub total: i64,
    pub done: i64,
    pub leased: i64,
    pub pending: i64,
    pub skipped: i64,
    /// Share of the folders that is done; zero for an empty sweep.
    pub percent: Percent,
}

/// View of a [`StatusReport`].
#[verifier::ext_equal]
pub struct StatusView {
    pub task: Seq<char>,
    pub sweep: i64,
    pub sweep_status: Seq<char>,
    pub total: int,
    pub done: int,
    pub leased: int,
    pub pending: int,
    pub skipped: int,
    /// The two parts of the percentage.
    pub percent: (int, int),
}

impl View for StatusReport {
    type V = StatusView;

    open spec fn view(&self) -> StatusView {
        StatusView {
            task: self.task@,
            sweep: self.sweep,
            sweep_status: self.sweep_status@,
            total: self.total as int,
            done: self.done as int,
            leased: self.leased as int,
            pending: self.pending as int,
            skipped: self.skipped as int,
            percent: (self.percent.part as int, self.percent.whole as int),
        }
    }
}

/// One row of `trail list`.
#[derive(Debug)]
pub struct ListRow {
    pub path: String,
    pub status: String,
    pub score: Score,
    pub lease_owner: Option<String>,
    pub lease_expires_at: Option<i64>,
    pub visited_at: Option<i64>,
}

/// View of a [`ListRow`].
#[verifier::ext_equal]
pub struct ListView {
    pub path: Seq<char>,
    pub status: Seq<char>,
    pub score: Score,
    pub lease_owner: Option<Seq<char>>,
    pub lease_expires_at: Option<i64>,
    pub visited_at: Option<i64>,
}

impl View for ListRow {
    type V = ListView;

    open spec fn view(&self) -> ListView {
        ListView {
            path: self.path@,
            status: self.status@,
            score: self.score,
            lease_owner: owned_text(self.lease_owner),
            lease_expires_at: self.lease_expires_at,
            visited_at: self.visited_at,
        }
    }
}

/// Result of `trail sweep new` / `trail sweep show`.
#[derive(Debug)]
pub struct SweepInfo {
    pub task: String,
    pub sweep: i64,
    /// "active", "complete" or "none".
    pub sweep_status: String,
    pub total: i64,
    pub started_at: Option<i64>,
    pub completed_at: Option<i64>,
}

/// View of a [`SweepInfo`].
#[verifier::ext_equal]
pub struct InfoView {
    pub task: Seq<char>,
    pub sweep: i64,
    pub sweep_status: Seq<char>,
    pub total: int,
    pub started_at: Option<i64>,
    pub completed_at: Option<i64>,
}

impl View for SweepInfo {
    type V = InfoView;

    open spec fn view(&self) -> InfoView {
        InfoView {
            task: self.task@,
            sweep: self.sweep,
            sweep_status: self.sweep_status@,
            total: self.total as int,
            started_at: self.started_at,
            completed_at: self.completed_at,
        }
    }
}

/// Result of `trail reset`.
#[derive(Debug)]
pub struct ResetResult {
    pub task: String,
    pub cleared_sweeps: i64,
    pub cleared_history: bool,
}

/// View of a [`ResetResult`].
#[verifier::ext_equal]
pub struct ResetView {
    pub task: Seq<char>,
    pub cleared_sweeps: int,
    pub cleared_history: bool,
}

impl View for ResetResult {
    type V = ResetView;

    open spec fn view(&self) -> ResetView {
        ResetView {
            task: self.task@,
            cleared_sweeps: self.cleared_sweeps as int,
            cleared_history: self.cleared_history,
        }
    }
}

/// Result of `trail gc`.
#[derive(Debug, Clone, Copy, PartialEq, Eq, Structural)]
pub struct GcResult {
    pub reclaimed_leases: i64,
}

// --- Laws --------------------------------------------------------------------

/// The stored name of a strategy or of a status reads back as it was.
pub proof fn law_names_read_back(strategy: Strategy, status: WorkStatus)
    ensures
        Strategy::named(strategy.name()) == strategy,
        WorkStatus::named(status.name()) == Some(status),
{
    reveal_strlit("round-robin");
    reveal_strlit("weighted");
    reveal_strlit("random");
    reveal_strlit("pending");
    reveal_strlit("leased");
    reveal_strlit("done");
    reveal_strlit("skipped");
    assert("weighted"@.len() == 8 && "random"@.len() == 6 && "round-robin"@.len() == 11);
    assert("pending"@.len() == 7 && "leased"@.len() == 6 && "done"@.len() == 4);
    assert("skipped"@.len() == 7);
    assert("pending"@[0] != "skipped"@[0]);
}

/// A score reads back as the bit pattern that it was made from, and different
/// patterns make different scores.
pub proof fn law_scores_read_back(bits: u64, score: Score)
    ensures
        score.key == Score::key_of(bits) ==> score.pattern() == bits,
        Score::key_of(score.pattern() as u64) == score.key,
{
}

/// Scores order as the numbers do: among numbers that are not negative the one
/// with the greater bit pattern is greater, among negative ones the one with the
/// smaller, and a negative number is less than one that is not.
pub proof fn law_scores_order_as_numbers(a: u64, b: u64)
    ensures
        a < SIGN_BIT && b < SIGN_BIT ==> (Score::key_of(a) < Score::key_of(b) <==> a < b),
        a >= SIGN_BIT && b >= SIGN_BIT ==> (Score::key_of(a) < Score::key_of(b) <==> a > b),
        a >= SIGN_BIT && b < SIGN_BIT ==> Score::key_of(a) < Score::key_of(b),
{
}

/// The names are these, whatever is stored under them; an unknown name of a strategy
/// stands for the weighted one, and an unknown name of a status for none.
pub proof fn law_names_are_stable(s: Seq<char>)
    ensures
        Strategy::RoundRobin.name() == "round-robin"@,
        Strategy::Weighted.name() == "weighted"@,
        Strategy::Random.name() == "random"@,
        WorkStatus::Pending.name() == "pending"@,
        WorkStatus::Leased.name() == "leased"@,
        WorkStatus::Done.name() == "done"@,
        WorkStatus::Skipped.name() == "skipped"@,
        SweepStatus::Active.name() == "active"@,
        SweepStatus::Complete.name() == "complete"@,
        s != "round-robin"@ && s != "random"@ ==> Strategy::named(s) == Strategy::Weighted,
        s != "pending"@ && s != "leased"@ && s != "done"@ && s != "skipped"@
            ==> WorkStatus::named(s) is None,
{
}

/// A folder is covered in two statuses and still to be covered in the other two.
pub proof fn law_two_statuses_are_terminal()
    ensures
        WorkStatus::Done.terminal() && !WorkStatus::Done.outstanding(),
        WorkStatus::Skipped.terminal() && !WorkStatus::Skipped.outstanding(),
        WorkStatus::Pending.outstanding() && !WorkStatus::Pending.terminal(),
        WorkStatus::Leased.outstanding() && !WorkStatus::Leased.terminal(),
{
}

/// The signal of a folder is the one of its three that is asked for.
pub proof fn law_a_signal_is_one_of_three(f: FolderStat)
    ensures
        f@.path == f.path@,
        f@.signal(StaticSignal::FileCount) == f.file_count,
        f@.signal(StaticSignal::SizeBytes) == f.size_bytes,
        f@.signal(StaticSignal::Churn) == f.churn,
{
}

/// The number 1 and all bit patterns below are between 0 and 1, and so is negative
/// zero; nothing else is. What is between stays, and what is not goes to the nearer
/// end, but for what is no number.
pub proof fn law_the_unit_interval(r: Real)
    ensures
        r.in_unit_interval() <==> r.bits <= 0x3FF0_0000_0000_0000 || r.bits
            == 0x8000_0000_0000_0000,
        r.in_unit_interval() ==> r.held() == r,
        0x3FF0_0000_0000_0000 < r.bits <= 0x7FF0_0000_0000_0000 ==> r.held().bits
            == 0x3FF0_0000_0000_0000,
        0x8000_0000_0000_0000 < r.bits <= 0xFFF0_0000_0000_0000 ==> r.held().bits == 0,
        0x7FF0_0000_0000_0000 < r.bits < 0x8000_0000_0000_0000 ==> r.held() == r,
        0xFFF0_0000_0000_0000 < r.bits ==> r.held() == r,
{
}

}
