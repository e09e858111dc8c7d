//! `gigs`: a frame-synchronized scheduler for sporadic, on-demand units of
//! GPU-bound work ("jobs").
//!
//! Each job declares a priority, a set of dependency jobs, and typed input
//! requirements that are polled for readiness every tick. Once per tick the
//! scheduler advances stall counters, evicts timed-out jobs, promotes jobs
//! whose inputs became ready, selects a priority-ordered and budget-bounded
//! batch to execute, and routes completion results back to the context that
//! originated each job.

use vstd::prelude::*;

pub mod graph;
pub mod input;
pub mod laws;
pub mod meta;
pub mod router;
pub mod runner;
pub mod select;

verus! {

/// Describes how an incomplete job may have failed.
///
/// All three variants are terminal: the job is removed from the scheduler
/// and the failure is reported exactly once to the originating context.
#[derive(Copy, Clone, PartialEq, Eq, Structural, Debug)]
pub enum JobError {
    /// The job exceeded the maximum number of ticks it may wait to execute,
    /// either because its inputs were not ready in time or because too many
    /// jobs were scheduled ahead of it.
    Stalled,
    /// A declared input reported a permanent failure during readiness polling.
    InputsFailed,
    /// The job's own execution logic reported a failure.
    ExecutionFailed,
}

/// An event signaling a completed (or failed) graphics job, delivered to the
/// context that originated the job.
#[derive(Copy, Clone, PartialEq, Eq, Debug)]
pub struct JobComplete(pub Result<(), JobError>);

/// Settings for how jobs are scheduled each tick.
#[derive(Copy, Clone, PartialEq, Eq, Structural, Debug)]
pub struct JobExecutionSettings {
    /// The maximum number of non-critical jobs to execute each tick. This
    /// number may be exceeded when jobs are queued with critical priority.
    pub max_jobs_per_frame: u32,
    /// The maximum number of ticks a job may wait to execute before it is
    /// evicted as stalled.
    pub time_out_frames: u32,
}

impl Default for JobExecutionSettings {
    /// By default, at most 16 non-critical jobs start per tick, and a job
    /// waits at most 16 ticks before it is evicted.
    fn default() -> (s: Self)
        ensures
            s.max_jobs_per_frame == 16,
            s.time_out_frames == 16,
    {
        Self { max_jobs_per_frame: 16, time_out_frames: 16 }
    }
}

/// The top-level configuration for the job scheduler: the host constructs
/// one of these and installs its settings at startup.
#[derive(Copy, Clone, PartialEq, Eq, Structural, Debug)]
pub struct GraphicsJobsPlugin {
    pub settings: JobExecutionSettings,
}

impl Default for GraphicsJobsPlugin {
    fn default() -> (p: Self)
        ensures
            p.settings.max_jobs_per_frame == 16,
            p.settings.time_out_frames == 16,
    {
        Self { settings: JobExecutionSettings::default() }
    }
}

} // verus!
