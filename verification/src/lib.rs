//! A coverage scheduler with memory.
//!
//! Hands an agent the next folder to work on for a named task, leases it so
//! parallel agents never collide, records the visit, and orders future work
//! from the history that accumulates under the task's name.

pub mod text;
pub mod model;
pub mod error;
pub mod config;
pub mod scheduler;
pub mod tally;
pub mod walk;
pub mod overrides;
pub mod rows;
pub mod state;
pub mod validity;
pub mod listing;
pub mod store;
pub mod command;
pub mod laws;
pub mod coverage;
pub mod memory;
pub mod planning;
pub mod answers;
pub mod handing;
pub mod snapshot;
pub mod agents;
pub mod history;

pub use config::{Config, LeaseConfig, ScanConfig, StrategyConfig};
pub use error::{ConfigIssue, Error};
pub use model::{
    CompleteResult, FolderStat, GcResult, InitResult, ListRow, NextResult, Percent, Real,
    ResetResult, Score, StaticSignal, StatusReport, Strategy, SweepInfo, SweepStatus, WorkStatus,
};
pub use store::Store;
pub use walk::{normalize_rel, scan, FileEntry, WalkOutcome};
