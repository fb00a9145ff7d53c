//! The data model: processes given to the simulation and the jobs it produces.
use vstd::prelude::*;

verus! {

/// Errors reported by the simulation.
#[derive(Debug, Clone, Copy, PartialEq, Eq, Structural)]
pub enum SchedError {
    /// A process with a zero burst, a duplicate id, or a zero round-robin quantum.
    InvalidProcess,
    /// Averages were requested while no process has completed.
    EmptyStatistics,
    /// The simulated clock would not fit in a `u32`.
    TimeOverflow,
    /// Figures that no valid schedule produces, such as a completion before
    /// the process could have run its whole burst.
    InvariantViolation,
}

/// A unit of work given to the scheduler; it is never changed by the simulation.
#[derive(Debug, Clone, Copy, PartialEq, Eq, Structural)]
pub struct Process {
    pub id: u32,
    pub arrival_time: u32,
    pub burst_time: u32,
    /// Lower values are more urgent.
    pub priority: u32,
}

/// Relies on rand's thread-local generator (`rand::rng().random()`): some `u32`.
#[verifier::external_body]
fn random_id() -> (r: u32) {
    rand::Rng::random(&mut rand::rng())
}

impl Process {
    /// A process with an id drawn at random; a zero burst is rejected.
    pub fn new(arrival_time: u32, burst_time: u32, priority: Option<u32>) -> (r: Result<Process, SchedError>)
        ensures
            burst_time == 0 <==> r is Err,
            r is Err ==> r->Err_0 == SchedError::InvalidProcess,
            r matches Ok(p) ==> p.arrival_time == arrival_time && p.burst_time == burst_time
                && p.priority == (match priority { Some(v) => v, None => 0u32 }),
    {
        if burst_time == 0 {
            return Err(SchedError::InvalidProcess);
        }
        let id = random_id();
        Process::with_id(id, arrival_time, burst_time, priority)
    }

    /// A process with a caller-chosen id; a zero burst is rejected.
    pub fn with_id(id: u32, arrival_time: u32, burst_time: u32, priority: Option<u32>) -> (r: Result<Process, SchedError>)
        ensures
            burst_time == 0 <==> r is Err,
            r is Err ==> r->Err_0 == SchedError::InvalidProcess,
            r matches Ok(p) ==> p.id == id && p.arrival_time == arrival_time && p.burst_time == burst_time
                && p.priority == (match priority { Some(v) => v, None => 0u32 }),
    {
        if burst_time == 0 {
            return Err(SchedError::InvalidProcess);
        }
        let priority = match priority {
            Some(v) => v,
            None => 0,
        };
        Ok(Process { id, arrival_time, burst_time, priority })
    }
}

/// Hands out process ids in increasing order, so no id is handed out twice.
pub struct ProcessIds {
    next: u32,
}

impl ProcessIds {
    /// The id the next process will get.
    pub closed spec fn next_id(&self) -> u32 {
        self.next
    }

    /// A counter that starts at id 0.
    pub fn new() -> (r: ProcessIds)
        ensures
            r.next_id() == 0,
    {
        ProcessIds { next: 0 }
    }

    /// A process with the next id; a zero burst is rejected, and so is a
    /// request once every `u32` id has been handed out.
    pub fn create(&mut self, arrival_time: u32, burst_time: u32, priority: Option<u32>) -> (r: Result<Process, SchedError>)
        ensures
            r is Ok <==> burst_time > 0 && old(self).next_id() < u32::MAX,
            r is Err ==> r->Err_0 == SchedError::InvalidProcess && final(self).next_id() == old(self).next_id(),
            r matches Ok(p) ==> p.id == old(self).next_id() && final(self).next_id() == old(self).next_id() + 1
                && p.arrival_time == arrival_time && p.burst_time == burst_time
                && p.priority == (match priority { Some(v) => v, None => 0u32 }),
    {
        if burst_time == 0 || self.next == u32::MAX {
            return Err(SchedError::InvalidProcess);
        }
        let id = self.next;
        self.next = self.next + 1;
        Process::with_id(id, arrival_time, burst_time, priority)
    }
}

/// Every id handed out before is below the counter's next id, so a process
/// created next never shares an id with an earlier one.
pub proof fn lemma_ids_distinct(before: ProcessIds, after: ProcessIds, earlier: Process, later: Process)
    requires
        earlier.id < before.next_id(),
        later.id == before.next_id(),
        after.next_id() == before.next_id() + 1,
    ensures
        earlier.id != later.id,
        earlier.id < after.next_id(),
        later.id < after.next_id(),
{
}

/// One uninterrupted execution segment of a process.
#[derive(Debug, Clone, Copy, PartialEq, Eq, Structural)]
pub struct Job {
    pub id: u32,
    pub start_time: u32,
    pub duration: u32,
}

impl Job {
    /// The job that runs the whole burst of `process` from `start_time`.
    pub fn new(process: &Process, start_time: u32) -> (r: Job)
        ensures
            r == (Job { id: process.id, start_time, duration: process.burst_time }),
    {
        Job { id: process.id, start_time, duration: process.burst_time }
    }
}

/// The scheduling policies; a smaller priority value is more urgent.
#[derive(Debug, Clone, Copy, PartialEq, Eq, Structural)]
pub enum SchedulingAlgorithm {
    /// First come, first served.
    FCFS,
    /// Shortest job first.
    SJF,
    /// Shortest remaining time first (preemptive shortest job first).
    SRTF,
    /// Priority scheduling without preemption.
    Priority,
    /// Priority scheduling with preemption.
    PriorityPreemptive,
    /// Round robin with the given time quantum.
    RoundRobin(u32),
}

} // verus!
