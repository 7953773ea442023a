//! The rows of the state: the folder snapshot, tasks, sweeps, the coverage
//! board and the visit history. Each has a view in which its texts are
//! sequences of characters and its counters are integers.

use vstd::prelude::*;
use crate::model;
use crate::model::{FolderStat, FolderView, Score, Strategy, SweepStatus, WorkStatus};

verus! {

/// A folder of the snapshot.
#[derive(Debug)]
pub struct FolderRow {
    pub stat: FolderStat,
    pub scanned_at: i64,
}

/// View of a [`FolderRow`].
#[verifier::ext_equal]
pub struct FolderRowView {
    pub stat: FolderView,
    pub scanned_at: i64,
}

impl View for FolderRow {
    type V = FolderRowView;

    open spec fn view(&self) -> FolderRowView {
        FolderRowView { stat: self.stat@, scanned_at: self.scanned_at }
    }
}

/// A task: the name under which history accumulates.
#[derive(Debug)]
pub struct TaskRow {
    pub name: String,
    pub strategy: Strategy,
    pub seed: u64,
    /// Number of the last sweep that was opened; zero before the first.
    pub current_sweep: i64,
    pub created_at: i64,
}

/// View of a [`TaskRow`].
#[verifier::ext_equal]
pub struct TaskView {
    pub name: Seq<char>,
    pub strategy: Strategy,
    pub seed: u64,
    pub current_sweep: i64,
    pub created_at: i64,
}

impl View for TaskRow {
    type V = TaskView;

    open spec fn view(&self) -> TaskView {
        TaskView {
            name: self.name@,
            strategy: self.strategy,
            seed: self.seed,
            current_sweep: self.current_sweep,
            created_at: self.created_at,
        }
    }
}

/// A sweep over all folders, with maintained counters, so that 'remaining', the
/// sweep-complete check and the status report read one row and not the board.
#[derive(Debug)]
pub struct SweepRow {
    pub task: String,
    pub sweep: i64,
    pub status: SweepStatus,
    pub started_at: i64,
    pub completed_at: Option<i64>,
    pub total: i64,
    pub pending: i64,
    pub leased: i64,
    pub done: i64,
    pub skipped: i64,
}

/// View of a [`SweepRow`].
#[verifier::ext_equal]
pub struct SweepView {
    pub task: Seq<char>,
    pub sweep: i64,
    pub status: SweepStatus,
    pub started_at: i64,
    pub completed_at: Option<i64>,
    pub total: int,
    pub pending: int,
    pub leased: int,
    pub done: int,
    pub skipped: int,
}

impl View for SweepRow {
    type V = SweepView;

    open spec fn view(&self) -> SweepView {
        SweepView {
            task: self.task@,
            sweep: self.sweep,
            status: self.status,
            started_at: self.started_at,
            completed_at: self.completed_at,
            total: self.total as int,
            pending: self.pending as int,
            leased: self.leased as int,
            done: self.done as int,
            skipped: self.skipped as int,
        }
    }
}

/// A folder on the coverage board of a sweep.
#[derive(Debug)]
pub struct WorkRow {
    pub task: String,
    pub sweep: i64,
    pub path: String,
    pub status: WorkStatus,
    /// Frozen when the sweep was opened.
    pub score: Score,
    pub lease_owner: Option<String>,
    pub lease_expires_at: Option<i64>,
    pub visited_at: Option<i64>,
}

/// View of a [`WorkRow`].
#[verifier::ext_equal]
pub struct WorkView {
    pub task: Seq<char>,
    pub sweep: i64,
    pub path: Seq<char>,
    pub status: WorkStatus,
    pub score: Score,
    pub lease_owner: Option<Seq<char>>,
    pub lease_expires_at: Option<i64>,
    pub visited_at: Option<i64>,
}

impl View for WorkRow {
    type V = WorkView;

    open spec fn view(&self) -> WorkView {
        WorkView {
            task: self.task@,
            sweep: self.sweep,
            path: self.path@,
            status: self.status,
            score: self.score,
            lease_owner: model::owned_text(self.lease_owner),
            lease_expires_at: self.lease_expires_at,
            visited_at: self.visited_at,
        }
    }
}

/// A finished visit. The history is append-only; a later row is a later visit.
#[derive(Debug)]
pub struct VisitRow {
    pub task: String,
    pub path: String,
    pub sweep: i64,
    pub visited_at: i64,
    pub agent: Option<String>,
    pub status: WorkStatus,
    pub reason: Option<String>,
    pub outcome: Option<i64>,
}

/// View of a [`VisitRow`].
#[verifier::ext_equal]
pub struct VisitView {
    pub task: Seq<char>,
    pub path: Seq<char>,
    pub sweep: i64,
    pub visited_at: i64,
    pub agent: Option<Seq<char>>,
    pub status: WorkStatus,
    pub reason: Option<Seq<char>>,
    pub outcome: Option<i64>,
}

impl View for VisitRow {
    type V = VisitView;

    open spec fn view(&self) -> VisitView {
        VisitView {
            task: self.task@,
            path: self.path@,
            sweep: self.sweep,
            visited_at: self.visited_at,
            agent: model::owned_text(self.agent),
            status: self.status,
            reason: model::owned_text(self.reason),
            outcome: self.outcome,
        }
    }
}

}
