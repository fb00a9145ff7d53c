//! Per-process statistics and their aggregates.
use vstd::prelude::*;
use crate::model::{Process, SchedError};

verus! {

/// Performance figures of one completed process.
#[derive(Debug, Clone, Copy, PartialEq, Eq, Structural)]
pub struct ProcessStats {
    pub process_id: u32,
    pub arrival_time: u32,
    pub completion_time: u32,
    pub turnaround_time: u32,
    pub waiting_time: u32,
}

/// The statistics that a process completing at `completion` has.
pub open spec fn stats_of(p: Process, completion: u32) -> ProcessStats {
    ProcessStats {
        process_id: p.id,
        arrival_time: p.arrival_time,
        completion_time: completion,
        turnaround_time: (completion - p.arrival_time) as u32,
        waiting_time: (completion - p.arrival_time - p.burst_time) as u32,
    }
}

impl ProcessStats {
    /// Statistics of `process` completing at `completion_time`; a completion
    /// before its arrival plus its burst is an invariant violation.
    pub fn new(process: &Process, completion_time: u32) -> (r: Result<ProcessStats, SchedError>)
        ensures
            r is Ok <==> completion_time >= process.arrival_time + process.burst_time,
            r is Err ==> r->Err_0 == SchedError::InvariantViolation,
            r matches Ok(st) ==> st == stats_of(*process, completion_time)
                && st.turnaround_time == completion_time - process.arrival_time
                && st.waiting_time == st.turnaround_time - process.burst_time
                && st.turnaround_time >= process.burst_time,
    {
        if (completion_time as u64) < process.arrival_time as u64 + process.burst_time as u64 {
            return Err(SchedError::InvariantViolation);
        }
        let turnaround_time = completion_time - process.arrival_time;
        let waiting_time = turnaround_time - process.burst_time;
        Ok(ProcessStats {
            process_id: process.id,
            arrival_time: process.arrival_time,
            completion_time,
            turnaround_time,
            waiting_time,
        })
    }
}

/// An exact mean: `total / count`, with `count > 0`.
#[derive(Debug, Clone, Copy, PartialEq, Eq, Structural)]
pub struct Average {
    pub total: u128,
    pub count: usize,
}

/// Sum of the waiting times of `s`.
pub open spec fn sum_waiting(s: Seq<ProcessStats>) -> int
    decreases s.len(),
{
    if s.len() == 0 { 0 } else { sum_waiting(s.drop_last()) + s.last().waiting_time }
}

/// Sum of the turnaround times of `s`.
pub open spec fn sum_turnaround(s: Seq<ProcessStats>) -> int
    decreases s.len(),
{
    if s.len() == 0 { 0 } else { sum_turnaround(s.drop_last()) + s.last().turnaround_time }
}

/// No two entries share a process id.
pub open spec fn ids_unique(s: Seq<ProcessStats>) -> bool {
    forall|a: int, b: int| 0 <= a < s.len() && 0 <= b < s.len() && a != b ==> s[a].process_id != s[b].process_id
}

/// Whether some entry of `s` belongs to process `id`.
pub open spec fn has_id(s: Seq<ProcessStats>, id: u32) -> bool {
    exists|k: int| 0 <= k < s.len() && s[k].process_id == id
}

/// `s` after recording `st`: it replaces the entry of the same process, or is appended.
pub open spec fn recorded(s: Seq<ProcessStats>, st: ProcessStats) -> Seq<ProcessStats> {
    if has_id(s, st.process_id) {
        s.map_values(|e: ProcessStats| if e.process_id == st.process_id { st } else { e })
    } else {
        s.push(st)
    }
}

/// `s` after recording each of `es` in turn.
pub open spec fn recorded_all(s: Seq<ProcessStats>, es: Seq<ProcessStats>) -> Seq<ProcessStats>
    decreases es.len(),
{
    if es.len() == 0 { s } else { recorded(recorded_all(s, es.drop_last()), es.last()) }
}

/// Statistics of completed processes, one entry per process id.
#[derive(Debug)]
pub struct SchedulingStats {
    stats: Vec<ProcessStats>,
}

impl View for SchedulingStats {
    type V = Seq<ProcessStats>;

    closed spec fn view(&self) -> Seq<ProcessStats> {
        self.stats@
    }
}

proof fn lemma_sum_bounds(s: Seq<ProcessStats>)
    ensures
        0 <= sum_waiting(s) <= s.len() * 0xffff_ffff,
        0 <= sum_turnaround(s) <= s.len() * 0xffff_ffff,
    decreases s.len(),
{
    if s.len() > 0 {
        lemma_sum_bounds(s.drop_last());
    }
}

impl SchedulingStats {
    /// The entries must have distinct process ids.
    pub open spec fn wf(&self) -> bool {
        ids_unique(self@)
    }

    /// No statistics yet.
    pub fn new() -> (r: SchedulingStats)
        ensures
            r@ == Seq::<ProcessStats>::empty(),
            r.wf(),
    {
        SchedulingStats { stats: Vec::new() }
    }

    /// The recorded entries, in the order they were first recorded.
    pub fn entries(&self) -> (r: &Vec<ProcessStats>)
        ensures
            r@ == self@,
    {
        &self.stats
    }

    /// Number of recorded processes.
    pub fn len(&self) -> (r: usize)
        ensures
            r == self@.len(),
    {
        self.stats.len()
    }

    /// Records `stats`, replacing any entry of the same process.
    pub fn add_process_stats(&mut self, stats: ProcessStats)
        requires
            old(self).wf(),
        ensures
            final(self).wf(),
            final(self)@ == recorded(old(self)@, stats),
    {
        let n = self.stats.len();
        let mut i: usize = 0;
        while i < n
            invariant
                n == self.stats@.len(),
                self@ == old(self)@,
                ids_unique(old(self)@),
                i <= n,
                forall|k: int| 0 <= k < i ==> self@[k].process_id != stats.process_id,
            decreases n - i,
        {
            if self.stats[i].process_id == stats.process_id {
                self.stats.set(i, stats);
                proof {
                    let o = old(self)@;
                    assert(has_id(o, stats.process_id));
                    assert forall|k: int| 0 <= k < o.len() implies
                        self@[k] == (if o[k].process_id == stats.process_id { stats } else { o[k] }) by {
                        if k != i {
                            assert(o[k].process_id != o[i as int].process_id);
                        }
                    }
                    assert(self@ =~= o.map_values(|e: ProcessStats| if e.process_id == stats.process_id { stats } else { e }));
                }
                return;
            }
            i = i + 1;
        }
        self.stats.push(stats);
    }

    /// The entry of process `process_id`, if it has one.
    pub fn get_process_stats(&self, process_id: u32) -> (r: Option<&ProcessStats>)
        requires
            self.wf(),
        ensures
            r is Some <==> has_id(self@, process_id),
            r matches Some(e) ==> e.process_id == process_id
                && exists|k: int| 0 <= k < self@.len() && self@[k] == *e,
    {
        let mut i: usize = 0;
        while i < self.stats.len()
            invariant
                i <= self@.len(),
                forall|k: int| 0 <= k < i ==> self@[k].process_id != process_id,
            decreases self@.len() - i,
        {
            if self.stats[i].process_id == process_id {
                return Some(&self.stats[i]);
            }
            i = i + 1;
        }
        None
    }

    /// Mean waiting time over the recorded processes.
    pub fn average_waiting_time(&self) -> (r: Result<Average, SchedError>)
        ensures
            self@.len() == 0 <==> r is Err,
            r is Err ==> r->Err_0 == SchedError::EmptyStatistics,
            r matches Ok(a) ==> a.total == sum_waiting(self@) && a.count == self@.len(),
    {
        let n = self.stats.len();
        if n == 0 {
            return Err(SchedError::EmptyStatistics);
        }
        let mut total: u128 = 0;
        let mut i: usize = 0;
        while i < n
            invariant
                n == self@.len(),
                i <= n,
                total == sum_waiting(self@.take(i as int)),
            decreases n - i,
        {
            proof {
                assert(self@.take(i + 1).drop_last() =~= self@.take(i as int));
                lemma_sum_bounds(self@.take(i as int));
                assert(i * 0xffff_ffff <= 0xffff_ffff_ffff_ffff * 0xffff_ffffint) by (nonlinear_arith)
                    requires i <= 0xffff_ffff_ffff_ffff;
            }
            total = total + self.stats[i].waiting_time as u128;
            i = i + 1;
        }
        assert(self@.take(n as int) =~= self@);
        Ok(Average { total, count: n })
    }

    /// Mean turnaround time over the recorded processes.
    pub fn average_turnaround_time(&self) -> (r: Result<Average, SchedError>)
        ensures
            self@.len() == 0 <==> r is Err,
            r is Err ==> r->Err_0 == SchedError::EmptyStatistics,
            r matches Ok(a) ==> a.total == sum_turnaround(self@) && a.count == self@.len(),
    {
        let n = self.stats.len();
        if n == 0 {
            return Err(SchedError::EmptyStatistics);
        }
        let mut total: u128 = 0;
        let mut i: usize = 0;
        while i < n
            invariant
                n == self@.len(),
                i <= n,
                total == sum_turnaround(self@.take(i as int)),
            decreases n - i,
        {
            proof {
                assert(self@.take(i + 1).drop_last() =~= self@.take(i as int));
                lemma_sum_bounds(self@.take(i as int));
                assert(i * 0xffff_ffff <= 0xffff_ffff_ffff_ffff * 0xffff_ffffint) by (nonlinear_arith)
                    requires i <= 0xffff_ffff_ffff_ffff;
            }
            total = total + self.stats[i].turnaround_time as u128;
            i = i + 1;
        }
        assert(self@.take(n as int) =~= self@);
        Ok(Average { total, count: n })
    }
}

} // verus!
