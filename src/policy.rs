//! The policies' decision: which ready process runs next, and for how long.
use vstd::prelude::*;
use crate::model::{Process, SchedulingAlgorithm};

verus! {

/// Process `i` has arrived by `clock` and still has work left.
pub open spec fn is_ready(ps: Seq<Process>, rem: Seq<u32>, clock: u32, i: int) -> bool {
    0 <= i < ps.len() && i < rem.len() && ps[i].arrival_time <= clock && rem[i] > 0
}

/// First-come order: by arrival, then by position in the input.
pub open spec fn arrives_before(ps: Seq<Process>, j: int, i: int) -> bool {
    ps[j].arrival_time < ps[i].arrival_time || (ps[j].arrival_time == ps[i].arrival_time && j < i)
}

/// Whether the policy strictly prefers process `j` over process `i`.
///
/// Shortest-job policies compare remaining work, then arrival, then id; priority
/// policies compare priority (smaller is more urgent), then first-come order;
/// the others use first-come order.
pub open spec fn precedes(algo: SchedulingAlgorithm, ps: Seq<Process>, rem: Seq<u32>, j: int, i: int) -> bool {
    match algo {
        SchedulingAlgorithm::SJF | SchedulingAlgorithm::SRTF =>
            rem[j] < rem[i] || (rem[j] == rem[i] && (ps[j].arrival_time < ps[i].arrival_time
                || (ps[j].arrival_time == ps[i].arrival_time && ps[j].id < ps[i].id))),
        SchedulingAlgorithm::Priority | SchedulingAlgorithm::PriorityPreemptive =>
            ps[j].priority < ps[i].priority || (ps[j].priority == ps[i].priority && arrives_before(ps, j, i)),
        _ => arrives_before(ps, j, i),
    }
}

/// Policies that may interrupt a process before it completes.
pub open spec fn is_preemptive(algo: SchedulingAlgorithm) -> bool {
    match algo {
        SchedulingAlgorithm::SRTF | SchedulingAlgorithm::PriorityPreemptive | SchedulingAlgorithm::RoundRobin(_) => true,
        _ => false,
    }
}

/// The earliest arrival strictly after `clock`, if any process arrives then.
pub open spec fn next_arrival_after(ps: Seq<Process>, clock: u32, t: u32) -> bool {
    (exists|k: int| 0 <= k < ps.len() && ps[k].arrival_time == t) && t > clock
        && forall|k: int| 0 <= k < ps.len() && ps[k].arrival_time > clock ==> t <= ps[k].arrival_time
}

fn prefers(algo: SchedulingAlgorithm, ps: &Vec<Process>, rem: &Vec<u32>, j: usize, i: usize) -> (r: bool)
    requires
        j < ps@.len(),
        i < ps@.len(),
        rem@.len() == ps@.len(),
    ensures
        r == precedes(algo, ps@, rem@, j as int, i as int),
{
    let pj = &ps[j];
    let pi = &ps[i];
    let fcfs = pj.arrival_time < pi.arrival_time || (pj.arrival_time == pi.arrival_time && j < i);
    match algo {
        SchedulingAlgorithm::SJF | SchedulingAlgorithm::SRTF => {
            rem[j] < rem[i] || (rem[j] == rem[i] && (pj.arrival_time < pi.arrival_time
                || (pj.arrival_time == pi.arrival_time && pj.id < pi.id)))
        },
        SchedulingAlgorithm::Priority | SchedulingAlgorithm::PriorityPreemptive => {
            pj.priority < pi.priority || (pj.priority == pi.priority && fcfs)
        },
        _ => fcfs,
    }
}

/// The earliest arrival after `clock`, if some process arrives later.
fn arrival_after(ps: &Vec<Process>, clock: u32) -> (r: Option<u32>)
    ensures
        r is None ==> forall|k: int| 0 <= k < ps@.len() ==> ps@[k].arrival_time <= clock,
        r matches Some(t) ==> next_arrival_after(ps@, clock, t),
{
    let mut best: Option<u32> = None;
    let mut k: usize = 0;
    while k < ps.len()
        invariant
            k <= ps@.len(),
            best is None ==> forall|m: int| 0 <= m < k ==> ps@[m].arrival_time <= clock,
            best matches Some(t) ==> t > clock && (exists|m: int| 0 <= m < k && ps@[m].arrival_time == t)
                && forall|m: int| 0 <= m < k && ps@[m].arrival_time > clock ==> t <= ps@[m].arrival_time,
        decreases ps@.len() - k,
    {
        let a = ps[k].arrival_time;
        if a > clock {
            match best {
                None => { best = Some(a); },
                Some(t) => { if a < t { best = Some(a); } },
            }
        }
        k = k + 1;
    }
    best
}

/// The policy's next decision at time `clock`: the ready process it runs and
/// the length of the slice, or `None` when no process is ready.
///
/// The chosen process is ready and no ready process is strictly preferred to it.
/// Without preemption the slice is the whole remaining work; with it the slice
/// ends at the next arrival or at completion, whichever is first. Round robin
/// does not choose by preference: the dispatch loop serves it from its queue.
/// Asked here, it answers with the first-come ready process and a slice of one
/// quantum, or less to complete.
pub fn next_slice(algo: SchedulingAlgorithm, ps: &Vec<Process>, rem: &Vec<u32>, clock: u32) -> (r: Option<(usize, u32)>)
    requires
        rem@.len() == ps@.len(),
        algo matches SchedulingAlgorithm::RoundRobin(q) ==> q > 0,
    ensures
        r is None <==> forall|j: int| 0 <= j < ps@.len() ==> !is_ready(ps@, rem@, clock, j),
        r matches Some((i, d)) ==> {
            &&& is_ready(ps@, rem@, clock, i as int)
            &&& forall|j: int| is_ready(ps@, rem@, clock, j) ==> !precedes(algo, ps@, rem@, j, i as int)
            &&& 0 < d <= rem@[i as int]
            &&& !is_preemptive(algo) ==> d == rem@[i as int]
            &&& (algo is SRTF || algo is PriorityPreemptive) ==> (
                d == rem@[i as int] || exists|t: u32| next_arrival_after(ps@, clock, t) && d == t - clock)
            &&& (algo is SRTF || algo is PriorityPreemptive) ==> forall|t: u32|
                next_arrival_after(ps@, clock, t) ==> d <= t - clock
            &&& (algo is SRTF || algo is PriorityPreemptive) ==> forall|m: int| 0 <= m < ps@.len()
                && ps@[m].arrival_time > clock ==> ps@[m].arrival_time >= clock + d
            &&& algo matches SchedulingAlgorithm::RoundRobin(q) ==> d == (if rem@[i as int] <= q { rem@[i as int] } else { q })
        },
        // Shortest-job policies never pass over a ready process with less work left.
        r matches Some((i, d)) ==> (algo is SJF || algo is SRTF) ==> forall|j: int|
            is_ready(ps@, rem@, clock, j) ==> rem@[i as int] <= rem@[j],
{
    let mut best: Option<usize> = None;
    let mut k: usize = 0;
    while k < ps.len()
        invariant
            k <= ps@.len(),
            rem@.len() == ps@.len(),
            best is None ==> forall|j: int| 0 <= j < k ==> !is_ready(ps@, rem@, clock, j),
            best matches Some(b) ==> b < k && is_ready(ps@, rem@, clock, b as int)
                && forall|j: int| 0 <= j < k && is_ready(ps@, rem@, clock, j) ==> !precedes(algo, ps@, rem@, j, b as int),
        decreases ps@.len() - k,
    {
        if ps[k].arrival_time <= clock && rem[k] > 0 {
            match best {
                None => { best = Some(k); },
                Some(b) => {
                    if prefers(algo, ps, rem, k, b) {
                        best = Some(k);
                    }
                },
            }
        }
        k = k + 1;
    }
    match best {
        None => None,
        Some(i) => {
            let left = rem[i];
            let d: u32 = match algo {
                SchedulingAlgorithm::SRTF | SchedulingAlgorithm::PriorityPreemptive => {
                    match arrival_after(ps, clock) {
                        Some(t) => { if t - clock < left { t - clock } else { left } },
                        None => left,
                    }
                },
                SchedulingAlgorithm::RoundRobin(q) => { if left <= q { left } else { q } },
                _ => left,
            };
            Some((i, d))
        },
    }
}

} // verus!
