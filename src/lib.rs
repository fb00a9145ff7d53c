//! CPU scheduling simulation: processes, policies, a dispatch loop and its statistics.

pub mod engine;
pub mod model;
pub mod policy;
pub mod scheduler;
pub mod stats;

pub use engine::{simulate, Schedule};
pub use model::{Job, Process, ProcessIds, SchedError, SchedulingAlgorithm};
pub use policy::next_slice;
pub use scheduler::FCFSScheduler;
pub use stats::{Average, ProcessStats, SchedulingStats};
