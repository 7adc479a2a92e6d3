//! The rules of job control: what the shell does with a command tree and
//! how it keeps track of the jobs it has sent to the background.
//!
//! Nothing here starts a process. `plan` says which steps a command tree
//! comes to and `advance` in which order they are taken; the program around
//! this library forks, wires the pipes and waits. `JobTable` keeps the jobs
//! that run in the background, and `update_job_statuses` asks the system
//! about their processes and says which lines to print.

pub mod job;
pub mod plan;
pub mod report;
pub mod result;

pub use job::{update_job_statuses, Job, JobStatus, JobTable, JobTableView, JobView, WaitOutcome};
pub use plan::{
    advance, argv_of, pipe_count, pipeline_group, plan, wire, Progress, Stage, Step,
};
pub use result::Error;
