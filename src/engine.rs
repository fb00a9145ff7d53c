//! The dispatch loop: it runs the policies' decisions on a virtual clock and
//! records the jobs and the statistics they produce.
use vstd::prelude::*;
use crate::model::{Job, Process, SchedError, SchedulingAlgorithm};
use crate::policy::{arrives_before, is_preemptive, is_ready, next_slice, precedes};
use crate::stats::{has_id, ids_unique, stats_of, ProcessStats, SchedulingStats};

verus! {

/// Sum of the burst times of `ps`.
pub open spec fn total_burst(ps: Seq<Process>) -> int
    decreases ps.len(),
{
    if ps.len() == 0 { 0 } else { total_burst(ps.drop_last()) + ps.last().burst_time }
}

/// Sum of the remaining work in `rem`.
pub open spec fn sum_rem(rem: Seq<u32>) -> int
    decreases rem.len(),
{
    if rem.len() == 0 { 0 } else { sum_rem(rem.drop_last()) + rem.last() }
}

/// Total duration of the jobs of process `id`.
pub open spec fn job_total(jobs: Seq<Job>, id: u32) -> int
    decreases jobs.len(),
{
    if jobs.len() == 0 {
        0
    } else {
        job_total(jobs.drop_last(), id) + (if jobs.last().id == id { jobs.last().duration as int } else { 0 })
    }
}

/// Every burst is positive and no two processes share an id.
pub open spec fn valid_processes(ps: Seq<Process>) -> bool {
    &&& forall|i: int| 0 <= i < ps.len() ==> ps[i].burst_time > 0
    &&& forall|i: int, j: int| 0 <= i < ps.len() && 0 <= j < ps.len() && i != j ==> ps[i].id != ps[j].id
}

/// The clock cannot pass `u32::MAX`: every arrival plus all the work fits.
pub open spec fn fits_clock(ps: Seq<Process>) -> bool {
    forall|i: int| 0 <= i < ps.len() ==> ps[i].arrival_time + total_burst(ps) <= u32::MAX
}

proof fn lemma_sum_rem_update(s: Seq<u32>, i: int, v: u32)
    requires
        0 <= i < s.len(),
    ensures
        sum_rem(s.update(i, v)) == sum_rem(s) - s[i] + v,
    decreases s.len(),
{
    let t = s.update(i, v);
    if i == s.len() - 1 {
        assert(t.drop_last() =~= s.drop_last());
    } else {
        assert(t.drop_last() =~= s.drop_last().update(i, v));
        lemma_sum_rem_update(s.drop_last(), i, v);
    }
}

proof fn lemma_sum_rem_bounds(ps: Seq<Process>, rem: Seq<u32>)
    requires
        rem.len() == ps.len(),
        forall|i: int| 0 <= i < ps.len() ==> rem[i] <= ps[i].burst_time,
    ensures
        0 <= sum_rem(rem) <= total_burst(ps),
    decreases ps.len(),
{
    if ps.len() > 0 {
        lemma_sum_rem_bounds(ps.drop_last(), rem.drop_last());
    }
}

proof fn lemma_sum_rem_full(ps: Seq<Process>, rem: Seq<u32>)
    requires
        rem.len() == ps.len(),
        forall|i: int| 0 <= i < ps.len() ==> rem[i] == ps[i].burst_time,
    ensures
        sum_rem(rem) == total_burst(ps),
    decreases ps.len(),
{
    if ps.len() > 0 {
        lemma_sum_rem_full(ps.drop_last(), rem.drop_last());
    }
}

proof fn lemma_job_total_push(jobs: Seq<Job>, j: Job, id: u32)
    ensures
        job_total(jobs.push(j), id) == job_total(jobs, id) + (if j.id == id { j.duration as int } else { 0 }),
{
    assert(jobs.push(j).drop_last() =~= jobs);
}

proof fn lemma_job_total_nonneg(jobs: Seq<Job>, id: u32)
    ensures
        job_total(jobs, id) >= 0,
    decreases jobs.len(),
{
    if jobs.len() > 0 {
        lemma_job_total_nonneg(jobs.drop_last(), id);
    }
}

proof fn lemma_job_total_set_last(jobs: Seq<Job>, j: Job, id: u32)
    requires
        jobs.len() > 0,
    ensures
        job_total(jobs.update(jobs.len() - 1, j), id) == job_total(jobs, id)
            - (if jobs.last().id == id { jobs.last().duration as int } else { 0 })
            + (if j.id == id { j.duration as int } else { 0 }),
{
    assert(jobs.update(jobs.len() - 1, j).drop_last() =~= jobs.drop_last());
}

/// Some job of process `id` ends at `c`, and no later job belongs to it.
pub open spec fn last_job_ends(jobs: Seq<Job>, id: u32, c: u32) -> bool {
    exists|j: int| 0 <= j < jobs.len() && jobs[j].id == id && jobs[j].start_time + jobs[j].duration == c
        && forall|j2: int| j < j2 < jobs.len() ==> jobs[j2].id != id
}

proof fn lemma_last_job_push(jobs: Seq<Job>, job: Job, id: u32, c: u32)
    requires
        last_job_ends(jobs, id, c),
        job.id != id,
    ensures
        last_job_ends(jobs.push(job), id, c),
{
    let j = choose|j: int| 0 <= j < jobs.len() && jobs[j].id == id && jobs[j].start_time + jobs[j].duration == c
        && forall|j2: int| j < j2 < jobs.len() ==> jobs[j2].id != id;
    let t = jobs.push(job);
    assert(t[j] == jobs[j]);
    assert forall|j2: int| j < j2 < t.len() implies t[j2].id != id by {
        if j2 < jobs.len() {
            assert(t[j2] == jobs[j2]);
        }
    }
}

proof fn lemma_last_job_set_last(jobs: Seq<Job>, job: Job, id: u32, c: u32)
    requires
        last_job_ends(jobs, id, c),
        jobs.len() > 0,
        jobs.last().id != id,
        job.id != id,
    ensures
        last_job_ends(jobs.update(jobs.len() - 1, job), id, c),
{
    let j = choose|j: int| 0 <= j < jobs.len() && jobs[j].id == id && jobs[j].start_time + jobs[j].duration == c
        && forall|j2: int| j < j2 < jobs.len() ==> jobs[j2].id != id;
    let t = jobs.update(jobs.len() - 1, job);
    assert(j != jobs.len() - 1);
    assert(t[j] == jobs[j]);
    assert forall|j2: int| j < j2 < t.len() implies t[j2].id != id by {
        if j2 < jobs.len() - 1 {
            assert(t[j2] == jobs[j2]);
        }
    }
}

proof fn lemma_last_job_new(jobs: Seq<Job>)
    requires
        jobs.len() > 0,
        jobs.last().start_time + jobs.last().duration <= u32::MAX,
    ensures
        last_job_ends(jobs, jobs.last().id, (jobs.last().start_time + jobs.last().duration) as u32),
{
    let j = jobs.len() - 1;
    assert(jobs[j].id == jobs.last().id);
}

/// The work each process has left when job `k` starts, from the jobs before it.
pub open spec fn rem_at(ps: Seq<Process>, jobs: Seq<Job>, k: int) -> Seq<u32> {
    Seq::new(ps.len(), |i: int| (ps[i].burst_time - job_total(jobs.take(k), ps[i].id)) as u32)
}

/// When the job before job `k` ends; zero for the first job.
pub open spec fn end_before(jobs: Seq<Job>, k: int) -> int {
    if k == 0 { 0 } else { jobs[k - 1].start_time + jobs[k - 1].duration }
}

/// The work left at time `t` inside job `k`, which runs process `a`.
pub open spec fn rem_within(ps: Seq<Process>, jobs: Seq<Job>, k: int, a: int, t: u32) -> Seq<u32> {
    rem_at(ps, jobs, k).update(a, (rem_at(ps, jobs, k)[a] - (t - jobs[k].start_time)) as u32)
}

/// At each arrival strictly inside job `k`, no ready process, counted with
/// the work it has left then, is preferred to `a`, the process the job runs.
pub open spec fn kept_preferred(algo: SchedulingAlgorithm, ps: Seq<Process>, jobs: Seq<Job>, k: int, a: int) -> bool {
    forall|m: int, j: int| 0 <= m < ps.len()
        && jobs[k].start_time < ps[m].arrival_time < jobs[k].start_time + jobs[k].duration
        && #[trigger] is_ready(ps, rem_within(ps, jobs, k, a, ps[m].arrival_time), ps[m].arrival_time, j)
        ==> !precedes(algo, ps, rem_within(ps, jobs, k, a, ps[m].arrival_time), j, a)
}

/// Job `k` runs process `a` as the policy decides: `a` was ready when the job
/// started and, but under round robin, no ready process was preferred to it.
/// Without preemption the job runs all the work `a` had left; with preemption
/// by arrivals it ends at completion or at an arrival, and `a` stays preferred
/// at every arrival inside it; under round robin it runs one quantum, or less
/// to complete.
pub open spec fn decided_by(algo: SchedulingAlgorithm, ps: Seq<Process>, jobs: Seq<Job>, k: int, a: int) -> bool {
    &&& 0 <= a < ps.len()
    &&& jobs[k].id == ps[a].id
    &&& is_ready(ps, rem_at(ps, jobs, k), jobs[k].start_time, a)
    &&& !(algo is RoundRobin) ==> forall|j: int| is_ready(ps, rem_at(ps, jobs, k), jobs[k].start_time, j)
            ==> !precedes(algo, ps, rem_at(ps, jobs, k), j, a)
    &&& !is_preemptive(algo) ==> jobs[k].duration == rem_at(ps, jobs, k)[a]
    &&& (algo is SRTF || algo is PriorityPreemptive) ==> (jobs[k].duration == rem_at(ps, jobs, k)[a]
            || exists|m: int| 0 <= m < ps.len() && ps[m].arrival_time == jobs[k].start_time + jobs[k].duration)
    &&& (algo is SRTF || algo is PriorityPreemptive) ==> kept_preferred(algo, ps, jobs, k, a)
    &&& algo matches SchedulingAlgorithm::RoundRobin(q) ==> jobs[k].duration
            == (if rem_at(ps, jobs, k)[a] <= q { rem_at(ps, jobs, k)[a] } else { q })
}

/// Job `k` is a decision of the policy for some process.
pub open spec fn decided(algo: SchedulingAlgorithm, ps: Seq<Process>, jobs: Seq<Job>, k: int) -> bool {
    exists|a: int| #[trigger] decided_by(algo, ps, jobs, k, a)
}

/// Job `k` starts when the previous one ends, unless no process with work
/// left had arrived before its start.
pub open spec fn no_idle(ps: Seq<Process>, jobs: Seq<Job>, k: int) -> bool {
    jobs[k].start_time == end_before(jobs, k)
        || forall|i: int| 0 <= i < ps.len() && rem_at(ps, jobs, k)[i] > 0 ==> ps[i].arrival_time >= jobs[k].start_time
}

/// The work each process has left is what the jobs so far leave of its burst.
spec fn rem_matches(ps: Seq<Process>, jobs: Seq<Job>, rem: Seq<u32>) -> bool {
    &&& rem.len() == ps.len()
    &&& forall|m: int| 0 <= m < ps.len() ==> job_total(jobs, #[trigger] ps[m].id) == ps[m].burst_time - rem[m]
}

proof fn lemma_rem_at_end(ps: Seq<Process>, jobs: Seq<Job>, rem: Seq<u32>)
    requires
        rem_matches(ps, jobs, rem),
    ensures
        rem_at(ps, jobs, jobs.len() as int) == rem,
{
    assert(jobs.take(jobs.len() as int) =~= jobs);
    assert(rem_at(ps, jobs, jobs.len() as int) =~= rem);
}

proof fn lemma_decided_kept(algo: SchedulingAlgorithm, ps: Seq<Process>, old_jobs: Seq<Job>, jobs: Seq<Job>, k: int)
    requires
        0 <= k < old_jobs.len(),
        k < jobs.len(),
        jobs.take(k) == old_jobs.take(k),
        jobs[k] == old_jobs[k],
        decided(algo, ps, old_jobs, k),
    ensures
        decided(algo, ps, jobs, k),
{
    assert(rem_at(ps, jobs, k) =~= rem_at(ps, old_jobs, k));
    let a = choose|a: int| decided_by(algo, ps, old_jobs, k, a);
    if algo is SRTF || algo is PriorityPreemptive {
        assert forall|m: int, j: int| 0 <= m < ps.len()
            && jobs[k].start_time < ps[m].arrival_time < jobs[k].start_time + jobs[k].duration
            && #[trigger] is_ready(ps, rem_within(ps, jobs, k, a, ps[m].arrival_time), ps[m].arrival_time, j)
            implies !precedes(algo, ps, rem_within(ps, jobs, k, a, ps[m].arrival_time), j, a) by {
            let t = ps[m].arrival_time;
            assert(rem_within(ps, jobs, k, a, t) == rem_within(ps, old_jobs, k, a, t));
            assert(kept_preferred(algo, ps, old_jobs, k, a));
            assert(is_ready(ps, rem_within(ps, old_jobs, k, a, t), t, j));
        }
    }
    assert(decided_by(algo, ps, jobs, k, a));
}

proof fn lemma_decided_new(algo: SchedulingAlgorithm, ps: Seq<Process>, old_jobs: Seq<Job>, jobs: Seq<Job>,
    rem: Seq<u32>, i: int, clock: u32, d: u32)
    requires
        rem_matches(ps, old_jobs, rem),
        0 <= i < ps.len(),
        jobs == old_jobs.push(Job { id: ps[i].id, start_time: clock, duration: d }),
        is_ready(ps, rem, clock, i),
        0 < d <= rem[i],
        !(algo is RoundRobin) ==> forall|j: int| is_ready(ps, rem, clock, j) ==> !precedes(algo, ps, rem, j, i),
        !is_preemptive(algo) ==> d == rem[i],
        algo matches SchedulingAlgorithm::RoundRobin(q) ==> d == (if rem[i] <= q { rem[i] } else { q }),
        (algo is SRTF || algo is PriorityPreemptive) ==> d == rem[i]
            || exists|m: int| 0 <= m < ps.len() && ps[m].arrival_time == clock + d,
        (algo is SRTF || algo is PriorityPreemptive) ==> forall|m: int| 0 <= m < ps.len()
            && ps[m].arrival_time > clock ==> ps[m].arrival_time >= clock + d,
    ensures
        decided(algo, ps, jobs, old_jobs.len() as int),
{
    let k = old_jobs.len() as int;
    assert(jobs.take(k) =~= old_jobs);
    lemma_rem_at_end(ps, old_jobs, rem);
    assert(rem_at(ps, jobs, k) == rem);
    if (algo is SRTF || algo is PriorityPreemptive) && d != rem[i] {
        let m = choose|m: int| 0 <= m < ps.len() && ps[m].arrival_time == clock + d;
        assert(ps[m].arrival_time == jobs[k].start_time + jobs[k].duration);
    }
    assert(decided_by(algo, ps, jobs, k, i));
}

proof fn lemma_decided_merged(algo: SchedulingAlgorithm, ps: Seq<Process>, old_jobs: Seq<Job>, jobs: Seq<Job>,
    rem: Seq<u32>, i: int, clock: u32, d: u32)
    requires
        valid_processes(ps),
        rem_matches(ps, old_jobs, rem),
        old_jobs.len() > 0,
        0 <= i < ps.len(),
        old_jobs.last().id == ps[i].id,
        old_jobs.last().start_time + old_jobs.last().duration == clock,
        jobs == old_jobs.update(old_jobs.len() - 1, Job { id: ps[i].id, start_time: old_jobs.last().start_time,
            duration: (old_jobs.last().duration + d) as u32 }),
        old_jobs.last().duration + d <= u32::MAX,
        decided(algo, ps, old_jobs, old_jobs.len() - 1),
        algo is SRTF || algo is PriorityPreemptive,
        is_ready(ps, rem, clock, i),
        0 < d <= rem[i],
        forall|j: int| is_ready(ps, rem, clock, j) ==> !precedes(algo, ps, rem, j, i),
        d == rem[i] || exists|m: int| 0 <= m < ps.len() && ps[m].arrival_time == clock + d,
        forall|m: int| 0 <= m < ps.len() && ps[m].arrival_time > clock ==> ps[m].arrival_time >= clock + d,
    ensures
        decided(algo, ps, jobs, old_jobs.len() - 1),
{
    let k = old_jobs.len() - 1;
    assert(jobs.take(k) =~= old_jobs.take(k));
    assert(rem_at(ps, jobs, k) =~= rem_at(ps, old_jobs, k));
    let r = rem_at(ps, old_jobs, k);
    let a = choose|a: int| decided_by(algo, ps, old_jobs, k, a);
    assert(a == i);
    assert(old_jobs.drop_last() =~= old_jobs.take(k));
    lemma_job_total_nonneg(old_jobs.take(k), ps[a].id);
    assert(r[a] == rem[a] + old_jobs[k].duration);
    if d != rem[i] {
        let m = choose|m: int| 0 <= m < ps.len() && ps[m].arrival_time == clock + d;
        assert(ps[m].arrival_time == jobs[k].start_time + jobs[k].duration);
    }
    assert forall|m: int| 0 <= m < ps.len() implies rem_within(ps, jobs, k, a, clock)[m] == rem[m] by {
        if m != a {
            assert(ps[m].id != ps[a].id);
        }
    }
    assert(rem_within(ps, jobs, k, a, clock) =~= rem);
    assert forall|m: int, j: int| 0 <= m < ps.len()
        && jobs[k].start_time < ps[m].arrival_time < jobs[k].start_time + jobs[k].duration
        && #[trigger] is_ready(ps, rem_within(ps, jobs, k, a, ps[m].arrival_time), ps[m].arrival_time, j)
        implies !precedes(algo, ps, rem_within(ps, jobs, k, a, ps[m].arrival_time), j, a) by {
        let t = ps[m].arrival_time;
        assert(rem_within(ps, jobs, k, a, t) == rem_within(ps, old_jobs, k, a, t));
        if t < clock {
            assert(kept_preferred(algo, ps, old_jobs, k, a));
            assert(is_ready(ps, rem_within(ps, old_jobs, k, a, t), t, j));
        } else if t > clock {
            assert(ps[m].arrival_time >= clock + d);
        }
    }
    assert(decided_by(algo, ps, jobs, k, a));
}

/// The state of one simulation run.
struct Run {
    rem: Vec<u32>,
    clock: u32,
    jobs: Vec<Job>,
    stats: SchedulingStats,
    /// Index of the process that each job belongs to.
    owner: Ghost<Seq<int>>,
    /// Index of the process that each statistics entry belongs to.
    done: Ghost<Seq<int>>,
    /// A process whose arrival bounds the clock together with the work done.
    anchor: Ghost<int>,
}

impl Run {
    spec fn inv(&self, algo: SchedulingAlgorithm, ps: Seq<Process>) -> bool {
        let n = ps.len();
        let rem = self.rem@;
        let jobs = self.jobs@;
        let owner = self.owner@;
        let done = self.done@;
        let st = self.stats@;
        &&& rem.len() == n
        &&& forall|i: int| 0 <= i < n ==> rem[i] <= ps[i].burst_time
        &&& 0 <= self.anchor@ < n
        &&& self.clock <= ps[self.anchor@].arrival_time + total_burst(ps) - sum_rem(rem)
        &&& owner.len() == jobs.len()
        &&& forall|k: int| 0 <= k < jobs.len() ==> 0 <= #[trigger] owner[k] < n && jobs[k].id == ps[owner[k]].id
        &&& forall|i: int| 0 <= i < n ==> job_total(jobs, ps[i].id) == ps[i].burst_time - rem[i]
        &&& forall|i: int| 0 <= i < n && rem[i] < ps[i].burst_time ==>
                self.clock >= ps[i].arrival_time + ps[i].burst_time - rem[i]
        &&& forall|k: int| 0 <= k < jobs.len() ==> {
                &&& jobs[k].start_time >= ps[owner[k]].arrival_time
                &&& jobs[k].duration > 0
                &&& jobs[k].start_time + jobs[k].duration <= self.clock
            }
        &&& forall|k: int| 0 <= k < jobs.len() - 1 ==> jobs[k].start_time + jobs[k].duration <= jobs[k + 1].start_time
        &&& algo matches SchedulingAlgorithm::RoundRobin(q) ==> forall|k: int| 0 <= k < jobs.len() ==> jobs[k].duration <= q
        &&& !is_preemptive(algo) ==> forall|k: int| 0 <= k < jobs.len() ==> rem[owner[k]] == 0
        &&& algo is FCFS ==> forall|i: int, u: int| 0 <= i < n && 0 <= u < n && rem[i] == 0 && rem[u] > 0
                ==> arrives_before(ps, i, u)
        &&& algo is FCFS ==> forall|k1: int, k2: int| 0 <= k1 < jobs.len() && 0 <= k2 < jobs.len()
                && arrives_before(ps, owner[k1], owner[k2]) ==> jobs[k1].start_time <= jobs[k2].start_time
        &&& forall|k: int| 0 <= k < jobs.len() ==> #[trigger] decided(algo, ps, jobs, k)
        &&& forall|k: int| 0 <= k < jobs.len() ==> #[trigger] no_idle(ps, jobs, k)
        &&& self.clock == end_before(jobs, jobs.len() as int)
            || forall|i: int| 0 <= i < n && rem[i] > 0 ==> ps[i].arrival_time >= self.clock
        &&& self.stats.wf()
        &&& st.len() == done.len()
        &&& forall|k: int| 0 <= k < st.len() ==> {
                &&& 0 <= #[trigger] done[k] < n
                &&& rem[done[k]] == 0
                &&& st[k] == stats_of(ps[done[k]], st[k].completion_time)
                &&& st[k].completion_time >= ps[done[k]].arrival_time + ps[done[k]].burst_time
                &&& last_job_ends(jobs, ps[done[k]].id, st[k].completion_time)
            }
        &&& forall|i: int| 0 <= i < n && rem[i] == 0 ==> exists|k: int| 0 <= k < done.len() && done[k] == i
    }

    /// Runs process `i` for `d` time units from the current clock.
    #[verifier::rlimit(60)]
    fn step(&mut self, Ghost(algo): Ghost<SchedulingAlgorithm>, ps: &Vec<Process>, i: usize, d: u32, merge: bool)
        requires
            valid_processes(ps@),
            fits_clock(ps@),
            old(self).inv(algo, ps@),
            is_ready(ps@, old(self).rem@, old(self).clock, i as int),
            0 < d <= old(self).rem@[i as int],
            !is_preemptive(algo) ==> d == old(self).rem@[i as int],
            algo matches SchedulingAlgorithm::RoundRobin(q) ==> d <= q
                && d == (if old(self).rem@[i as int] <= q { old(self).rem@[i as int] } else { q }),
            (algo is SRTF || algo is PriorityPreemptive) ==> d == old(self).rem@[i as int]
                || exists|m: int| 0 <= m < ps@.len() && ps@[m].arrival_time == old(self).clock + d,
            (algo is SRTF || algo is PriorityPreemptive) ==> forall|m: int| 0 <= m < ps@.len()
                && ps@[m].arrival_time > old(self).clock ==> ps@[m].arrival_time >= old(self).clock + d,
            merge ==> (algo is SRTF || algo is PriorityPreemptive),
            !(algo is RoundRobin) ==> forall|j: int| is_ready(ps@, old(self).rem@, old(self).clock, j)
                ==> !precedes(algo, ps@, old(self).rem@, j, i as int),
        ensures
            final(self).inv(algo, ps@),
            final(self).rem@ == old(self).rem@.update(i as int, (old(self).rem@[i as int] - d) as u32),
            final(self).clock == old(self).clock + d,
    {
        let ghost ps_s = ps@;
        let ghost old_rem = self.rem@;
        let ghost old_jobs = self.jobs@;
        let ghost clock0 = self.clock;
        let ghost n = ps_s.len();
        proof {
            lemma_sum_rem_update(old_rem, i as int, (old_rem[i as int] - d) as u32);
            lemma_sum_rem_bounds(ps_s, old_rem);
            lemma_sum_rem_bounds(ps_s, old_rem.update(i as int, (old_rem[i as int] - d) as u32));
        }
        let p = ps[i];
        let start = self.clock;
        let jl = self.jobs.len();
        let extend = merge && jl > 0 && self.jobs[jl - 1].id == p.id
            && self.jobs[jl - 1].start_time as u64 + self.jobs[jl - 1].duration as u64 == start as u64;
        if extend {
            let last = self.jobs[jl - 1];
            proof {
                lemma_job_total_set_last(old_jobs, Job { id: last.id, start_time: last.start_time, duration: (last.duration + d) as u32 }, p.id);
                assert forall|m: int| 0 <= m < n implies
                    job_total(old_jobs.update(jl - 1, Job { id: last.id, start_time: last.start_time, duration: (last.duration + d) as u32 }), #[trigger] ps_s[m].id)
                        == job_total(old_jobs, ps_s[m].id) + (if m == i { d as int } else { 0 }) by {
                    lemma_job_total_set_last(old_jobs, Job { id: last.id, start_time: last.start_time, duration: (last.duration + d) as u32 }, ps_s[m].id);
                }
            }
            self.jobs.set(jl - 1, Job { id: last.id, start_time: last.start_time, duration: last.duration + d });
        } else {
            let job = Job { id: p.id, start_time: start, duration: d };
            proof {
                assert forall|m: int| 0 <= m < n implies
                    job_total(old_jobs.push(job), #[trigger] ps_s[m].id)
                        == job_total(old_jobs, ps_s[m].id) + (if m == i { d as int } else { 0 }) by {
                    lemma_job_total_push(old_jobs, job, ps_s[m].id);
                }
            }
            self.jobs.push(job);
            self.owner = Ghost(self.owner@.push(i as int));
        }
        proof {
            let jobs = self.jobs@;
            let kk = old_jobs.len() as int;
            assert forall|m: int| 0 <= m < n implies (ps_s[m].burst_time - job_total(old_jobs, #[trigger] ps_s[m].id)) as u32 == old_rem[m] by {}
            assert forall|k: int| 0 <= k < jobs.len() implies #[trigger] decided(algo, ps_s, jobs, k) by {
                if k < kk && !(extend && k == kk - 1) {
                    assert(jobs.take(k) =~= old_jobs.take(k));
                    assert(jobs[k] == old_jobs[k]);
                    lemma_decided_kept(algo, ps_s, old_jobs, jobs, k);
                } else if k < kk {
                    lemma_decided_merged(algo, ps_s, old_jobs, jobs, old_rem, i as int, clock0, d);
                } else {
                    lemma_decided_new(algo, ps_s, old_jobs, jobs, old_rem, i as int, clock0, d);
                }
            }
            assert forall|k: int| 0 <= k < jobs.len() implies #[trigger] no_idle(ps_s, jobs, k) by {
                assert(jobs.take(k) =~= old_jobs.take(k) || k == kk);
                if k < kk {
                    assert(rem_at(ps_s, jobs, k) =~= rem_at(ps_s, old_jobs, k));
                    assert(no_idle(ps_s, old_jobs, k));
                } else {
                    assert(jobs.take(k) =~= old_jobs);
                    assert(rem_at(ps_s, jobs, k) =~= old_rem);
                }
                if k > 0 {
                    assert(jobs[k - 1] == old_jobs[k - 1]);
                }
            }
        }
        proof {
            let jobs = self.jobs@;
            let st = self.stats@;
            assert forall|k: int| 0 <= k < st.len() implies last_job_ends(jobs, ps_s[self.done@[k]].id, st[k].completion_time) by {
                let dk = self.done@[k];
                assert(old_rem[dk] == 0);
                assert(dk != i);
                if extend {
                    lemma_last_job_set_last(old_jobs, jobs.last(), ps_s[dk].id, st[k].completion_time);
                } else {
                    lemma_last_job_push(old_jobs, jobs.last(), ps_s[dk].id, st[k].completion_time);
                }
                assert(jobs == old_jobs.update(old_jobs.len() - 1, jobs.last()) || jobs == old_jobs.push(jobs.last()));
            }
            lemma_last_job_new(jobs);
        }
        self.clock = start + d;
        let left = self.rem[i] - d;
        self.rem.set(i, left);
        if left == 0 {
            let st = match ProcessStats::new(&p, self.clock) {
                Ok(st) => st,
                Err(_) => {
                    proof {
                        assert(false);
                    }
                    return;
                },
            };
            proof {
                assert forall|k: int| 0 <= k < self.stats@.len() implies self.stats@[k].process_id != p.id by {
                    let dk = self.done@[k];
                    assert(old_rem[dk] == 0);
                }
                assert(!has_id(self.stats@, p.id));
            }
            self.stats.add_process_stats(st);
            self.done = Ghost(self.done@.push(i as int));
        }
        proof {
            let rem = self.rem@;
            assert forall|m: int| 0 <= m < n && rem[m] == 0 implies exists|k: int| 0 <= k < self.done@.len() && self.done@[k] == m by {
                if m == i {
                    assert(self.done@[self.done@.len() - 1] == m);
                } else {
                    let k = choose|k: int| 0 <= k < old(self).done@.len() && old(self).done@[k] == m;
                    assert(self.done@[k] == m);
                }
            }
            assert forall|k: int| 0 <= k < self.jobs@.len() implies #[trigger] no_idle(ps_s, self.jobs@, k) by {
                assert(decided(algo, ps_s, self.jobs@, k));
            }
            if algo is FCFS {
                let owner = self.owner@;
                let jobs = self.jobs@;
                assert forall|a: int, u: int| 0 <= a < n && 0 <= u < n && rem[a] == 0 && rem[u] > 0
                    implies arrives_before(ps_s, a, u) by {
                    if a == i {
                        if is_ready(ps_s, old_rem, clock0, u) {
                            assert(!precedes(algo, ps_s, old_rem, u, i as int));
                        }
                    } else {
                        assert(old_rem[a] == 0 && old_rem[u] > 0);
                    }
                }
                assert forall|k1: int, k2: int| 0 <= k1 < jobs.len() && 0 <= k2 < jobs.len()
                    && arrives_before(ps_s, owner[k1], owner[k2]) implies jobs[k1].start_time <= jobs[k2].start_time by {
                    let last = jobs.len() - 1;
                    if k1 == last && k2 != last {
                        assert(old_rem[owner[k2]] == 0);
                        assert(arrives_before(ps_s, owner[k2], i as int));
                    } else if k2 == last && k1 != last {
                        assert(jobs[k1] == old_jobs[k1]);
                    }
                }
            }
        }
    }

    /// A run where nothing has executed yet.
    fn start(Ghost(algo): Ghost<SchedulingAlgorithm>, ps: &Vec<Process>) -> (r: Run)
        requires
            valid_processes(ps@),
            fits_clock(ps@),
            ps@.len() > 0,
        ensures
            r.inv(algo, ps@),
            r.clock == 0,
    {
        let mut rem: Vec<u32> = Vec::new();
        let mut k: usize = 0;
        while k < ps.len()
            invariant
                k <= ps@.len(),
                rem@.len() == k,
                forall|m: int| 0 <= m < k ==> rem@[m] == ps@[m].burst_time,
            decreases ps@.len() - k,
        {
            rem.push(ps[k].burst_time);
            k = k + 1;
        }
        proof {
            lemma_sum_rem_full(ps@, rem@);
        }
        let run = Run {
            rem,
            clock: 0,
            jobs: Vec::new(),
            stats: SchedulingStats::new(),
            owner: Ghost(Seq::empty()),
            done: Ghost(Seq::empty()),
            anchor: Ghost(0),
        };
        proof {
            assert forall|m: int| 0 <= m < ps@.len() implies job_total(run.jobs@, #[trigger] ps@[m].id) == 0 by {}
        }
        run
    }

    /// Moves the clock forward to the arrival of process `k`, when nothing is ready.
    fn jump(&mut self, Ghost(algo): Ghost<SchedulingAlgorithm>, ps: &Vec<Process>, k: usize)
        requires
            old(self).inv(algo, ps@),
            k < ps@.len(),
            old(self).rem@[k as int] > 0,
            ps@[k as int].arrival_time > old(self).clock,
            forall|j: int| 0 <= j < ps@.len() && old(self).rem@[j] > 0 ==> ps@[k as int].arrival_time <= ps@[j].arrival_time,
        ensures
            final(self).inv(algo, ps@),
            final(self).rem@ == old(self).rem@,
            final(self).clock == ps@[k as int].arrival_time,
    {
        proof {
            lemma_sum_rem_bounds(ps@, self.rem@);
        }
        self.clock = ps[k].arrival_time;
        self.anchor = Ghost(k as int);
        assert(forall|k: int| 0 <= k < self.jobs@.len() ==> #[trigger] decided(algo, ps@, self.jobs@, k));
        assert(forall|k: int| 0 <= k < self.jobs@.len() ==> #[trigger] no_idle(ps@, self.jobs@, k));
    }
}

/// Whether some process has work left.
fn has_unfinished(rem: &Vec<u32>) -> (r: bool)
    ensures
        r <==> exists|i: int| 0 <= i < rem@.len() && rem@[i] > 0,
{
    let mut k: usize = 0;
    while k < rem.len()
        invariant
            k <= rem@.len(),
            forall|m: int| 0 <= m < k ==> rem@[m] == 0,
        decreases rem@.len() - k,
    {
        if rem[k] > 0 {
            return true;
        }
        k = k + 1;
    }
    false
}

/// The unfinished process that arrives first.
fn earliest_pending(ps: &Vec<Process>, rem: &Vec<u32>) -> (k: usize)
    requires
        rem@.len() == ps@.len(),
        exists|i: int| 0 <= i < rem@.len() && rem@[i] > 0,
    ensures
        k < ps@.len(),
        rem@[k as int] > 0,
        forall|j: int| 0 <= j < ps@.len() && rem@[j] > 0 ==> ps@[k as int].arrival_time <= ps@[j].arrival_time,
{
    let mut best: Option<usize> = None;
    let mut m: usize = 0;
    while m < ps.len()
        invariant
            m <= ps@.len(),
            rem@.len() == ps@.len(),
            best is None ==> forall|j: int| 0 <= j < m ==> rem@[j] == 0,
            best matches Some(b) ==> b < m && rem@[b as int] > 0
                && forall|j: int| 0 <= j < m && rem@[j] > 0 ==> ps@[b as int].arrival_time <= ps@[j].arrival_time,
        decreases ps@.len() - m,
    {
        if rem[m] > 0 {
            match best {
                None => { best = Some(m); },
                Some(b) => {
                    if ps[m].arrival_time < ps[b].arrival_time {
                        best = Some(m);
                    }
                },
            }
        }
        m = m + 1;
    }
    match best {
        Some(b) => b,
        None => {
            proof {
                let i = choose|i: int| 0 <= i < rem@.len() && rem@[i] > 0;
                assert(rem@[i] == 0);
            }
            0
        },
    }
}

/// Runs a policy other than round robin to the end.
fn run_policy(algo: SchedulingAlgorithm, ps: &Vec<Process>) -> (r: Run)
    requires
        valid_processes(ps@),
        fits_clock(ps@),
        ps@.len() > 0,
        !(algo is RoundRobin),
    ensures
        r.inv(algo, ps@),
        forall|i: int| 0 <= i < ps@.len() ==> r.rem@[i] == 0,
{
    let mut run = Run::start(Ghost(algo), ps);
    let merge = match algo {
        SchedulingAlgorithm::SRTF | SchedulingAlgorithm::PriorityPreemptive => true,
        _ => false,
    };
    while has_unfinished(&run.rem)
        invariant
            valid_processes(ps@),
            fits_clock(ps@),
            !(algo is RoundRobin),
            merge == (algo is SRTF || algo is PriorityPreemptive),
            run.inv(algo, ps@),
        decreases sum_rem(run.rem@),
    {
        let mut sel = next_slice(algo, ps, &run.rem, run.clock);
        if sel.is_none() {
            let k = earliest_pending(ps, &run.rem);
            assert(!is_ready(ps@, run.rem@, run.clock, k as int));
            run.jump(Ghost(algo), ps, k);
            sel = next_slice(algo, ps, &run.rem, run.clock);
            assert(is_ready(ps@, run.rem@, run.clock, k as int));
        }
        match sel {
            Some((i, d)) => {
                proof {
                    lemma_sum_rem_update(run.rem@, i as int, (run.rem@[i as int] - d) as u32);
                }
                run.step(Ghost(algo), ps, i, d, merge);
                proof {
                    lemma_sum_rem_bounds(ps@, run.rem@);
                }
            },
            None => {
                assert(false);
            },
        }
    }
    run
}

/// The round-robin queue holds, once each, exactly the admitted processes with
/// work left; a process is admitted once its arrival is below `lim`, which is
/// at most one past the clock, and an unadmitted process has not run.
spec fn queue_ok(ps: Seq<Process>, rem: Seq<u32>, queue: Seq<usize>, lim: u64, clock: u32) -> bool {
    &&& rem.len() == ps.len()
    &&& queue.no_duplicates()
    &&& forall|k: int| 0 <= k < queue.len() ==> {
            &&& #[trigger] queue[k] < ps.len()
            &&& ps[queue[k] as int].arrival_time < lim
            &&& rem[queue[k] as int] > 0
        }
    &&& forall|i: int| 0 <= i < ps.len() && ps[i].arrival_time < lim && rem[i] > 0 ==> queue.contains(i as usize)
    &&& forall|i: int| 0 <= i < ps.len() && ps[i].arrival_time >= lim ==> rem[i] == ps[i].burst_time
    &&& lim <= clock + 1
}

/// The earliest arrival `t` with `lo <= t <= hi`, if any.
fn min_arrival_in(ps: &Vec<Process>, lo: u64, hi: u32) -> (r: Option<u32>)
    ensures
        r is None ==> forall|k: int| 0 <= k < ps@.len() ==> !(lo <= #[trigger] ps@[k].arrival_time <= hi),
        r matches Some(t) ==> lo <= t <= hi && (exists|k: int| 0 <= k < ps@.len() && ps@[k].arrival_time == t)
            && forall|k: int| 0 <= k < ps@.len() && lo <= ps@[k].arrival_time <= hi ==> t <= ps@[k].arrival_time,
{
    let mut best: Option<u32> = None;
    let mut k: usize = 0;
    while k < ps.len()
        invariant
            k <= ps@.len(),
            best is None ==> forall|m: int| 0 <= m < k ==> !(lo <= #[trigger] ps@[m].arrival_time <= hi),
            best matches Some(t) ==> lo <= t <= hi && (exists|m: int| 0 <= m < k && ps@[m].arrival_time == t)
                && forall|m: int| 0 <= m < k && lo <= ps@[m].arrival_time <= hi ==> t <= ps@[m].arrival_time,
        decreases ps@.len() - k,
    {
        let a = ps[k].arrival_time;
        if lo <= a as u64 && a <= hi {
            match best {
                None => { best = Some(a); },
                Some(t) => { if a < t { best = Some(a); } },
            }
        }
        k = k + 1;
    }
    best
}

/// Appends to the queue every process that has arrived by `clock` and is not
/// yet admitted: by arrival time, and in input order among equal arrivals.
fn enqueue_arrivals(ps: &Vec<Process>, queue: &mut Vec<usize>, lim: &mut u64, clock: u32, Ghost(rem): Ghost<Seq<u32>>)
    requires
        valid_processes(ps@),
        queue_ok(ps@, rem, old(queue)@, *old(lim), clock),
    ensures
        queue_ok(ps@, rem, final(queue)@, *final(lim), clock),
        *final(lim) == clock + 1,
{
    while *lim <= clock as u64
        invariant
            valid_processes(ps@),
            queue_ok(ps@, rem, queue@, *lim, clock),
        decreases clock + 1 - *lim,
    {
        match min_arrival_in(ps, *lim, clock) {
            None => {
                *lim = clock as u64 + 1;
            },
            Some(t) => {
                let ghost q0 = queue@;
                let mut k: usize = 0;
                while k < ps.len()
                    invariant
                        k <= ps@.len(),
                        rem.len() == ps@.len(),
                        valid_processes(ps@),
                        *lim <= t,
                        t <= clock,
                        queue_ok(ps@, rem, q0, *lim, clock),
                        queue@.no_duplicates(),
                        forall|m: int| 0 <= m < queue@.len() ==> {
                            &&& #[trigger] queue@[m] < ps@.len()
                            &&& ps@[queue@[m] as int].arrival_time <= t
                            &&& rem[queue@[m] as int] > 0
                        },
                        forall|m: int| 0 <= m < queue@.len() && m >= q0.len() ==> queue@[m] < k
                            && ps@[queue@[m] as int].arrival_time == t,
                        forall|m: int| 0 <= m < q0.len() ==> queue@[m] == q0[m],
                        q0.len() <= queue@.len(),
                        forall|i: int| 0 <= i < k && ps@[i].arrival_time == t ==> queue@.contains(i as usize),
                    decreases ps@.len() - k,
                {
                    if ps[k].arrival_time == t {
                        proof {
                            assert(!queue@.contains(k)) by {
                                if queue@.contains(k) {
                                    let m = choose|m: int| 0 <= m < queue@.len() && queue@[m] == k;
                                    if m < q0.len() {
                                        assert(q0[m] == k);
                                    }
                                }
                            }
                        }
                        let ghost qb = queue@;
                        queue.push(k);
                        proof {
                            assert forall|i: int| 0 <= i < k + 1 && ps@[i].arrival_time == t
                                implies queue@.contains(i as usize) by {
                                if i == k {
                                    assert(queue@[queue@.len() - 1] == k);
                                } else {
                                    let m = choose|m: int| 0 <= m < qb.len() && qb[m] == i as usize;
                                    assert(queue@[m] == i as usize);
                                }
                            }
                        }
                    }
                    k = k + 1;
                }
                proof {
                    assert forall|i: int| 0 <= i < ps@.len() && ps@[i].arrival_time < t + 1 && rem[i] > 0
                        implies queue@.contains(i as usize) by {
                        if ps@[i].arrival_time < *lim {
                            let m = choose|m: int| 0 <= m < q0.len() && q0[m] == i as usize;
                            assert(queue@[m] == i as usize);
                        }
                    }
                }
                *lim = t as u64 + 1;
            },
        }
    }
}

/// Runs round robin with quantum `q` to the end.
#[verifier::rlimit(100)]
fn run_round_robin(q: u32, ps: &Vec<Process>) -> (r: Run)
    requires
        valid_processes(ps@),
        fits_clock(ps@),
        ps@.len() > 0,
        q > 0,
    ensures
        r.inv(SchedulingAlgorithm::RoundRobin(q), ps@),
        forall|i: int| 0 <= i < ps@.len() ==> r.rem@[i] == 0,
{
    let ghost algo = SchedulingAlgorithm::RoundRobin(q);
    let mut run = Run::start(Ghost(algo), ps);
    let mut queue: Vec<usize> = Vec::new();
    let mut lim: u64 = 0;
    while has_unfinished(&run.rem)
        invariant
            valid_processes(ps@),
            fits_clock(ps@),
            q > 0,
            algo == SchedulingAlgorithm::RoundRobin(q),
            run.inv(algo, ps@),
            queue_ok(ps@, run.rem@, queue@, lim, run.clock),
        decreases sum_rem(run.rem@),
    {
        enqueue_arrivals(ps, &mut queue, &mut lim, run.clock, Ghost(run.rem@));
        if queue.len() == 0 {
            let k = earliest_pending(ps, &run.rem);
            assert(!queue@.contains(k));
            run.jump(Ghost(algo), ps, k);
            enqueue_arrivals(ps, &mut queue, &mut lim, run.clock, Ghost(run.rem@));
            assert(queue@.contains(k));
        }
        let ghost q0 = queue@;
        let i = queue.remove(0);
        assert(q0[0] == i);
        let left = run.rem[i];
        let d: u32 = if left <= q { left } else { q };
        let plen = ps.len();
        let ghost before = run.rem@;
        let ghost clock0 = run.clock;
        assert(queue_ok(ps@, before, q0, lim, clock0));
        proof {
            lemma_sum_rem_update(before, i as int, (left - d) as u32);
        }
        run.step(Ghost(algo), ps, i, d, false);
        proof {
            lemma_sum_rem_bounds(ps@, run.rem@);
            let n = ps@.len();
            assert(queue@ =~= q0.subrange(1, q0.len() as int));
            assert forall|k: int| 0 <= k < queue@.len() implies {
                &&& #[trigger] queue@[k] < n
                &&& ps@[queue@[k] as int].arrival_time < lim
                &&& run.rem@[queue@[k] as int] > 0
                &&& queue@[k] != i
            } by {
                assert(queue@[k] == q0[k + 1]);
                assert(q0[k + 1] != q0[0]);
            }
            assert forall|j: int| 0 <= j < n && ps@[j].arrival_time < lim && run.rem@[j] > 0 && j != i
                implies queue@.contains(j as usize) by {
                assert(before[j] == run.rem@[j]);
                assert(q0.contains(j as usize));
                let m = choose|m: int| 0 <= m < q0.len() && q0[m] == j as usize;
                assert(m != 0);
                assert(queue@[m - 1] == j as usize);
            }
            assert forall|j: int| 0 <= j < n && ps@[j].arrival_time >= lim implies run.rem@[j] == ps@[j].burst_time by {
                assert(j != i);
            }
        }
        if run.rem[i] > 0 {
            let ghost held = run.rem@.update(i as int, 0u32);
            assert(queue_ok(ps@, held, queue@, lim, run.clock));
            enqueue_arrivals(ps, &mut queue, &mut lim, run.clock, Ghost(held));
            let ghost qa = queue@;
            queue.push(i);
            proof {
                assert forall|k: int| 0 <= k < qa.len() implies #[trigger] qa[k] != i
                    && run.rem@[qa[k] as int] == held[qa[k] as int] by {}
                assert forall|k: int| 0 <= k < queue@.len() implies {
                    &&& #[trigger] queue@[k] < ps@.len()
                    &&& ps@[queue@[k] as int].arrival_time < lim
                    &&& run.rem@[queue@[k] as int] > 0
                } by {
                    if k < qa.len() {
                        assert(queue@[k] == qa[k]);
                    }
                }
                assert forall|j: int| 0 <= j < ps@.len() && ps@[j].arrival_time < lim && run.rem@[j] > 0
                    implies queue@.contains(j as usize) by {
                    if j == i {
                        assert(queue@[queue@.len() - 1] == i);
                    } else {
                        assert(held[j] == run.rem@[j]);
                        let m = choose|m: int| 0 <= m < qa.len() && qa[m] == j as usize;
                        assert(queue@[m] == j as usize);
                    }
                }
                assert forall|j: int| 0 <= j < ps@.len() && ps@[j].arrival_time >= lim
                    implies run.rem@[j] == ps@[j].burst_time by {
                    assert(held[j] == ps@[j].burst_time);
                }
            }
        }
    }
    run
}

proof fn lemma_total_prefix(ps: Seq<Process>, i: int)
    requires
        0 <= i <= ps.len(),
    ensures
        total_burst(ps.take(i)) <= total_burst(ps),
    decreases ps.len(),
{
    if i == ps.len() {
        assert(ps.take(i) =~= ps);
    } else {
        assert(ps.take(i) =~= ps.drop_last().take(i));
        lemma_total_prefix(ps.drop_last(), i);
    }
}

/// Round robin needs a positive quantum.
pub open spec fn quantum_ok(algo: SchedulingAlgorithm) -> bool {
    algo matches SchedulingAlgorithm::RoundRobin(q) ==> q > 0
}

/// Rejects a zero burst, a repeated id or a zero quantum, then a run whose
/// clock would not fit in a `u32`.
fn check_input(ps: &Vec<Process>, algo: SchedulingAlgorithm) -> (r: Result<(), SchedError>)
    ensures
        r is Ok <==> valid_processes(ps@) && quantum_ok(algo) && fits_clock(ps@),
        r == Err::<(), SchedError>(SchedError::InvalidProcess) <==> !(valid_processes(ps@) && quantum_ok(algo)),
        r == Err::<(), SchedError>(SchedError::TimeOverflow) <==> valid_processes(ps@) && quantum_ok(algo) && !fits_clock(ps@),
{
    if let SchedulingAlgorithm::RoundRobin(q) = algo {
        if q == 0 {
            return Err(SchedError::InvalidProcess);
        }
    }
    let n = ps.len();
    let mut i: usize = 0;
    while i < n
        invariant
            n == ps@.len(),
            i <= n,
            forall|a: int| 0 <= a < i ==> ps@[a].burst_time > 0,
            forall|a: int, b: int| 0 <= a < i && 0 <= b < n && a != b ==> ps@[a].id != ps@[b].id,
        decreases n - i,
    {
        if ps[i].burst_time == 0 {
            return Err(SchedError::InvalidProcess);
        }
        let mut j: usize = 0;
        while j < n
            invariant
                n == ps@.len(),
                i < n,
                j <= n,
                forall|b: int| 0 <= b < j && b != i ==> ps@[i as int].id != ps@[b].id,
            decreases n - j,
        {
            if j != i && ps[j].id == ps[i].id {
                return Err(SchedError::InvalidProcess);
            }
            j = j + 1;
        }
        i = i + 1;
    }
    let mut total: u64 = 0;
    let mut most: u32 = 0;
    let mut k: usize = 0;
    while k < n
        invariant
            n == ps@.len(),
            k <= n,
            total == total_burst(ps@.take(k as int)),
            total <= u32::MAX,
            valid_processes(ps@),
            quantum_ok(algo),
            forall|a: int| 0 <= a < k ==> ps@[a].arrival_time <= most,
            k == 0 ==> most == 0,
            k > 0 ==> exists|a: int| 0 <= a < k && ps@[a].arrival_time == most,
        decreases n - k,
    {
        assert(ps@.take(k + 1).drop_last() =~= ps@.take(k as int));
        total = total + ps[k].burst_time as u64;
        if ps[k].arrival_time > most {
            most = ps[k].arrival_time;
        }
        k = k + 1;
        if total > u32::MAX as u64 {
            proof {
                lemma_total_prefix(ps@, k as int);
                assert(ps@[0].arrival_time + total_burst(ps@) > u32::MAX);
            }
            return Err(SchedError::TimeOverflow);
        }
    }
    assert(ps@.take(n as int) =~= ps@);
    if most as u64 + total > u32::MAX as u64 {
        return Err(SchedError::TimeOverflow);
    }
    Ok(())
}

/// The jobs run one at a time, each for some process, never before it arrives.
pub open spec fn timeline_ok(ps: Seq<Process>, jobs: Seq<Job>) -> bool {
    &&& forall|k: int| 0 <= k < jobs.len() ==> jobs[k].duration > 0 && exists|a: int|
            0 <= a < ps.len() && jobs[k].id == ps[a].id && jobs[k].start_time >= ps[a].arrival_time
    &&& forall|k: int| 0 <= k < jobs.len() - 1 ==> jobs[k].start_time + jobs[k].duration <= jobs[k + 1].start_time
}

/// The jobs of each process add up to its burst.
pub open spec fn work_conserved(ps: Seq<Process>, jobs: Seq<Job>) -> bool {
    forall|i: int| 0 <= i < ps.len() ==> job_total(jobs, ps[i].id) == ps[i].burst_time
}

/// A process that comes first in arrival order (input order among equal
/// arrivals) starts no later.
pub open spec fn fcfs_ordered(ps: Seq<Process>, jobs: Seq<Job>) -> bool {
    forall|k1: int, k2: int, a: int, b: int|
        0 <= k1 < jobs.len() && 0 <= k2 < jobs.len() && 0 <= a < ps.len() && 0 <= b < ps.len()
        && jobs[k1].id == ps[a].id && jobs[k2].id == ps[b].id && arrives_before(ps, a, b)
        ==> jobs[k1].start_time <= jobs[k2].start_time
}

/// No job runs longer than the quantum `q`.
pub open spec fn within_quantum(q: u32, jobs: Seq<Job>) -> bool {
    forall|k: int| 0 <= k < jobs.len() ==> jobs[k].duration <= q
}

/// Some entry of `st` is that of process `i` completing when its last job
/// ends, no earlier than its arrival plus its burst.
pub open spec fn completed(ps: Seq<Process>, jobs: Seq<Job>, st: Seq<ProcessStats>, i: int) -> bool {
    exists|k: int| 0 <= k < st.len()
        && st[k] == stats_of(ps[i], st[k].completion_time)
        && st[k].completion_time >= ps[i].arrival_time + ps[i].burst_time
        && last_job_ends(jobs, ps[i].id, st[k].completion_time)
}

/// Whether entry `k` of `st` belongs to some process of `ps`.
pub open spec fn belongs(ps: Seq<Process>, st: Seq<ProcessStats>, k: int) -> bool {
    exists|i: int| 0 <= i < ps.len() && st[k].process_id == ps[i].id
}

/// One entry per process, each completing when its last job in `jobs` ends.
pub open spec fn stats_complete(ps: Seq<Process>, jobs: Seq<Job>, st: Seq<ProcessStats>) -> bool {
    &&& ids_unique(st)
    &&& forall|i: int| 0 <= i < ps.len() ==> #[trigger] completed(ps, jobs, st, i)
    &&& forall|k: int| 0 <= k < st.len() ==> #[trigger] belongs(ps, st, k)
}

/// The jobs and the statistics of a finished run.
pub struct Schedule {
    pub jobs: Vec<Job>,
    pub stats: SchedulingStats,
}

/// Simulates `processes`, given in submission order, under `algorithm`.
pub fn simulate(processes: &Vec<Process>, algorithm: SchedulingAlgorithm) -> (r: Result<Schedule, SchedError>)
    ensures
        r is Ok <==> valid_processes(processes@) && quantum_ok(algorithm) && fits_clock(processes@),
        r matches Err(e) ==> (e == SchedError::InvalidProcess <==> !(valid_processes(processes@) && quantum_ok(algorithm))),
        r matches Err(e) ==> e == SchedError::InvalidProcess || e == SchedError::TimeOverflow,
        r matches Ok(s) ==> {
            &&& s.stats.wf()
            &&& timeline_ok(processes@, s.jobs@)
            &&& work_conserved(processes@, s.jobs@)
            &&& stats_complete(processes@, s.jobs@, s.stats@)
            &&& forall|k: int| 0 <= k < s.jobs@.len() ==> #[trigger] decided(algorithm, processes@, s.jobs@, k)
            &&& forall|k: int| 0 <= k < s.jobs@.len() ==> #[trigger] no_idle(processes@, s.jobs@, k)
            &&& algorithm is FCFS ==> fcfs_ordered(processes@, s.jobs@)
            &&& algorithm matches SchedulingAlgorithm::RoundRobin(q) ==> within_quantum(q, s.jobs@)
        },
{
    match check_input(processes, algorithm) {
        Err(e) => { return Err(e); },
        Ok(()) => {},
    }
    if processes.len() == 0 {
        return Ok(Schedule { jobs: Vec::new(), stats: SchedulingStats::new() });
    }
    let run = match algorithm {
        SchedulingAlgorithm::RoundRobin(q) => run_round_robin(q, processes),
        _ => run_policy(algorithm, processes),
    };
    let ghost ps = processes@;
    proof {
        let jobs = run.jobs@;
        let owner = run.owner@;
        let st = run.stats@;
        let done = run.done@;
        assert forall|k: int| 0 <= k < jobs.len() implies jobs[k].duration > 0 && exists|a: int|
            0 <= a < ps.len() && jobs[k].id == ps[a].id && jobs[k].start_time >= ps[a].arrival_time by {
            let a = owner[k];
        }
        assert forall|i: int| 0 <= i < ps.len() implies #[trigger] completed(ps, jobs, st, i) by {
            assert(run.rem@[i] == 0);
            let k = choose|k: int| 0 <= k < done.len() && done[k] == i;
        }
        assert forall|i: int| 0 <= i < ps.len() implies job_total(jobs, #[trigger] ps[i].id) == ps[i].burst_time by {
            assert(run.rem@[i] == 0);
        }
        assert forall|k: int| 0 <= k < st.len() implies #[trigger] belongs(ps, st, k) by {
            let i = done[k];
        }
        if algorithm is FCFS {
            assert forall|k1: int, k2: int, a: int, b: int|
                0 <= k1 < jobs.len() && 0 <= k2 < jobs.len() && 0 <= a < ps.len() && 0 <= b < ps.len()
                && jobs[k1].id == ps[a].id && jobs[k2].id == ps[b].id && arrives_before(ps, a, b)
                implies jobs[k1].start_time <= jobs[k2].start_time by {
                assert(owner[k1] == a);
                assert(owner[k2] == b);
            }
        }
    }
    Ok(Schedule { jobs: run.jobs, stats: run.stats })
}

/// For every process of a finished run, its turnaround is its completion
/// minus its arrival and at least its burst, and its waiting time is its
/// turnaround minus its burst, hence never negative.
pub proof fn lemma_stats_consistent(ps: Seq<Process>, jobs: Seq<Job>, st: Seq<ProcessStats>)
    requires
        valid_processes(ps),
        stats_complete(ps, jobs, st),
    ensures
        forall|i: int, k: int| 0 <= i < ps.len() && 0 <= k < st.len() && st[k].process_id == ps[i].id ==> {
            &&& st[k].turnaround_time == st[k].completion_time - ps[i].arrival_time
            &&& st[k].turnaround_time >= ps[i].burst_time
            &&& st[k].waiting_time == st[k].turnaround_time - ps[i].burst_time
            &&& st[k].waiting_time >= 0
        },
{
    assert forall|i: int, k: int| 0 <= i < ps.len() && 0 <= k < st.len() && st[k].process_id == ps[i].id implies {
        &&& st[k].turnaround_time == st[k].completion_time - ps[i].arrival_time
        &&& st[k].turnaround_time >= ps[i].burst_time
        &&& st[k].waiting_time == st[k].turnaround_time - ps[i].burst_time
        &&& st[k].waiting_time >= 0
    } by {
        assert(completed(ps, jobs, st, i));
        let k2 = choose|k2: int| 0 <= k2 < st.len() && st[k2] == stats_of(ps[i], st[k2].completion_time)
            && st[k2].completion_time >= ps[i].arrival_time + ps[i].burst_time
            && last_job_ends(jobs, ps[i].id, st[k2].completion_time);
        assert(k2 == k);
    }
}

/// Under the shortest-job policies, when a job starts, no ready process has
/// strictly less work left than the process the job runs.
pub proof fn lemma_shortest_not_passed_over(algo: SchedulingAlgorithm, ps: Seq<Process>, jobs: Seq<Job>, k: int, j: int)
    requires
        algo is SJF || algo is SRTF,
        0 <= k < jobs.len(),
        decided(algo, ps, jobs, k),
        is_ready(ps, rem_at(ps, jobs, k), jobs[k].start_time, j),
    ensures
        exists|a: int| 0 <= a < ps.len() && jobs[k].id == ps[a].id
            && rem_at(ps, jobs, k)[a] <= rem_at(ps, jobs, k)[j],
{
    let r = rem_at(ps, jobs, k);
    let a = choose|a: int| decided_by(algo, ps, jobs, k, a);
    assert(!precedes(algo, ps, r, j, a));
}

} // verus!
