//! A first-come, first-served scheduler that collects processes and then runs them.
use std::collections::VecDeque;
use vstd::prelude::*;
use crate::engine::{
    decided, fcfs_ordered, fits_clock, no_idle, simulate, stats_complete, timeline_ok, valid_processes,
    work_conserved,
};
use crate::model::{Process, SchedError, SchedulingAlgorithm, Job};
use crate::stats::{recorded_all, ProcessStats, SchedulingStats};

verus! {

/// Processes waiting to be scheduled first come, first served, and the
/// outcome of the last run.
pub struct FCFSScheduler {
    pub ready_queue: VecDeque<Process>,
    pub jobs: Vec<Job>,
    pub stats: SchedulingStats,
}

impl FCFSScheduler {
    /// An empty scheduler.
    pub fn new() -> (r: FCFSScheduler)
        ensures
            r.ready_queue@.len() == 0,
            r.jobs@.len() == 0,
            r.stats@.len() == 0,
            r.stats.wf(),
    {
        FCFSScheduler { ready_queue: VecDeque::new(), jobs: Vec::new(), stats: SchedulingStats::new() }
    }

    /// Queues `process`; a zero burst or an id already queued is rejected.
    pub fn submit(&mut self, process: Process) -> (r: Result<(), SchedError>)
        ensures
            r is Ok <==> process.burst_time > 0
                && forall|k: int| 0 <= k < old(self).ready_queue@.len() ==> old(self).ready_queue@[k].id != process.id,
            r is Ok ==> final(self).ready_queue@ == old(self).ready_queue@.push(process),
            r is Err ==> r->Err_0 == SchedError::InvalidProcess && final(self).ready_queue@ == old(self).ready_queue@,
            final(self).jobs@ == old(self).jobs@,
            final(self).stats@ == old(self).stats@,
            final(self).stats.wf() == old(self).stats.wf(),
    {
        if process.burst_time == 0 {
            return Err(SchedError::InvalidProcess);
        }
        let n = self.ready_queue.len();
        let mut k: usize = 0;
        while k < n
            invariant
                n == self.ready_queue@.len(),
                self.ready_queue@ == old(self).ready_queue@,
                k <= n,
                forall|m: int| 0 <= m < k ==> self.ready_queue@[m].id != process.id,
            decreases n - k,
        {
            if self.ready_queue[k].id == process.id {
                return Err(SchedError::InvalidProcess);
            }
            k = k + 1;
        }
        self.ready_queue.push_back(process);
        Ok(())
    }

    /// Runs the queued processes in first-come order and empties the queue.
    /// This run's jobs are appended to the earlier ones and its statistics are
    /// recorded into the earlier ones. Nothing changes when the queue holds an
    /// invalid process or a run too long for the clock.
    pub fn schedule(&mut self) -> (r: Result<(), SchedError>)
        requires
            old(self).stats.wf(),
        ensures
            final(self).stats.wf(),
            r is Ok <==> valid_processes(old(self).ready_queue@) && fits_clock(old(self).ready_queue@),
            r matches Err(e) ==> (e == SchedError::InvalidProcess <==> !valid_processes(old(self).ready_queue@))
                && (e == SchedError::InvalidProcess || e == SchedError::TimeOverflow),
            r is Err ==> final(self).ready_queue@ == old(self).ready_queue@
                && final(self).jobs@ == old(self).jobs@
                && final(self).stats@ == old(self).stats@,
            r is Ok ==> {
                let ps = old(self).ready_queue@;
                let m = old(self).jobs@.len() as int;
                let new_jobs = final(self).jobs@.subrange(m, final(self).jobs@.len() as int);
                &&& final(self).ready_queue@.len() == 0
                &&& m <= final(self).jobs@.len()
                &&& final(self).jobs@.subrange(0, m) == old(self).jobs@
                &&& timeline_ok(ps, new_jobs)
                &&& work_conserved(ps, new_jobs)
                &&& fcfs_ordered(ps, new_jobs)
                &&& forall|k: int| 0 <= k < new_jobs.len()
                    ==> #[trigger] decided(SchedulingAlgorithm::FCFS, ps, new_jobs, k)
                &&& forall|k: int| 0 <= k < new_jobs.len() ==> #[trigger] no_idle(ps, new_jobs, k)
                &&& exists|run_stats: Seq<ProcessStats>| stats_complete(ps, new_jobs, run_stats)
                    && final(self).stats@ == recorded_all(old(self).stats@, run_stats)
            },
    {
        let n = self.ready_queue.len();
        let mut ps: Vec<Process> = Vec::new();
        let mut k: usize = 0;
        while k < n
            invariant
                n == self.ready_queue@.len(),
                self.ready_queue@ == old(self).ready_queue@,
                k <= n,
                ps@ == self.ready_queue@.take(k as int),
            decreases n - k,
        {
            ps.push(self.ready_queue[k]);
            k = k + 1;
            assert(ps@ =~= self.ready_queue@.take(k as int));
        }
        assert(ps@ =~= old(self).ready_queue@);
        let s = match simulate(&ps, SchedulingAlgorithm::FCFS) {
            Err(e) => { return Err(e); },
            Ok(s) => s,
        };
        let m = self.jobs.len();
        let mut j: usize = 0;
        while j < s.jobs.len()
            invariant
                m == old(self).jobs@.len(),
                j <= s.jobs@.len(),
                self.jobs@ == old(self).jobs@ + s.jobs@.take(j as int),
                self.stats@ == old(self).stats@,
                self.stats.wf(),
                self.ready_queue@ == old(self).ready_queue@,
            decreases s.jobs@.len() - j,
        {
            self.jobs.push(s.jobs[j]);
            j = j + 1;
            assert(self.jobs@ =~= old(self).jobs@ + s.jobs@.take(j as int));
        }
        assert(s.jobs@.take(s.jobs@.len() as int) =~= s.jobs@);
        assert(self.jobs@.subrange(m as int, self.jobs@.len() as int) =~= s.jobs@);
        assert(self.jobs@.subrange(0, m as int) =~= old(self).jobs@);
        let entries = s.stats.entries();
        let mut e: usize = 0;
        while e < entries.len()
            invariant
                e <= entries@.len(),
                entries@ == s.stats@,
                self.stats.wf(),
                self.stats@ == recorded_all(old(self).stats@, entries@.take(e as int)),
                self.jobs@.subrange(m as int, self.jobs@.len() as int) == s.jobs@,
                self.jobs@.subrange(0, m as int) == old(self).jobs@,
                m <= self.jobs@.len(),
                self.ready_queue@ == old(self).ready_queue@,
            decreases entries@.len() - e,
        {
            assert(entries@.take(e + 1).drop_last() =~= entries@.take(e as int));
            self.stats.add_process_stats(entries[e]);
            e = e + 1;
        }
        assert(entries@.take(entries@.len() as int) =~= entries@);
        self.ready_queue.clear();
        Ok(())
    }
}

} // verus!
