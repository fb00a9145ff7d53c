use cpu_sched::{
    next_slice, simulate, Average, FCFSScheduler, Job, Process, ProcessStats, SchedError,
    SchedulingAlgorithm, SchedulingStats,
};

fn proc(id: u32, arrival: u32, burst: u32, priority: u32) -> Process {
    Process::with_id(id, arrival, burst, Some(priority)).unwrap()
}

fn job(id: u32, start_time: u32, duration: u32) -> Job {
    Job { id, start_time, duration }
}

fn mean(a: Average) -> f64 {
    a.total as f64 / a.count as f64
}

fn run(ps: Vec<Process>, algo: SchedulingAlgorithm) -> (Vec<Job>, SchedulingStats) {
    let s = simulate(&ps, algo).unwrap();
    (s.jobs, s.stats)
}

fn three_processes() -> Vec<Process> {
    vec![proc(1, 0, 5, 0), proc(2, 1, 3, 0), proc(3, 2, 8, 0)]
}

#[test]
fn fcfs_example_timeline_and_waiting() {
    let (jobs, stats) = run(three_processes(), SchedulingAlgorithm::FCFS);
    assert_eq!(jobs, vec![job(1, 0, 5), job(2, 5, 3), job(3, 8, 8)]);
    let p1 = stats.get_process_stats(1).unwrap();
    let p2 = stats.get_process_stats(2).unwrap();
    let p3 = stats.get_process_stats(3).unwrap();
    assert_eq!((p1.completion_time, p1.waiting_time, p1.turnaround_time), (5, 0, 5));
    assert_eq!((p2.completion_time, p2.waiting_time, p2.turnaround_time), (8, 4, 7));
    assert_eq!((p3.completion_time, p3.waiting_time, p3.turnaround_time), (16, 6, 14));
    let avg = stats.average_waiting_time().unwrap();
    assert_eq!(avg, Average { total: 10, count: 3 });
    assert!((mean(avg) - 10.0 / 3.0).abs() < 1e-12);
    let tat = stats.average_turnaround_time().unwrap();
    assert_eq!(tat, Average { total: 26, count: 3 });
}

#[test]
fn fcfs_scheduler_runs_queue() {
    let mut s = FCFSScheduler::new();
    for p in three_processes() {
        s.submit(p).unwrap();
    }
    assert_eq!(s.schedule(), Ok(()));
    assert!(s.ready_queue.is_empty());
    assert_eq!(s.jobs, vec![job(1, 0, 5), job(2, 5, 3), job(3, 8, 8)]);
    assert_eq!(s.stats.len(), 3);
    assert_eq!(s.stats.get_process_stats(3).unwrap().waiting_time, 6);
}

#[test]
fn fcfs_scheduler_rejects_duplicate_and_zero_burst() {
    let mut s = FCFSScheduler::new();
    assert_eq!(s.submit(proc(7, 0, 2, 0)), Ok(()));
    assert_eq!(s.submit(proc(7, 3, 4, 0)), Err(SchedError::InvalidProcess));
    let zero = Process { id: 8, arrival_time: 0, burst_time: 0, priority: 0 };
    assert_eq!(s.submit(zero), Err(SchedError::InvalidProcess));
    assert_eq!(s.ready_queue.len(), 1);
}

#[test]
fn fcfs_scheduler_overflow_keeps_queue() {
    let mut s = FCFSScheduler::new();
    s.submit(proc(1, u32::MAX - 1, 5, 0)).unwrap();
    assert_eq!(s.schedule(), Err(SchedError::TimeOverflow));
    assert_eq!(s.ready_queue.len(), 1);
    assert!(s.jobs.is_empty());
}

#[test]
fn fcfs_equal_arrivals_keep_submission_order() {
    let (jobs, _) = run(vec![proc(9, 0, 2, 0), proc(3, 0, 1, 0), proc(5, 0, 1, 0)], SchedulingAlgorithm::FCFS);
    assert_eq!(jobs, vec![job(9, 0, 2), job(3, 2, 1), job(5, 3, 1)]);
}

#[test]
fn fcfs_orders_by_arrival_not_submission() {
    let (jobs, _) = run(vec![proc(1, 4, 2, 0), proc(2, 0, 3, 0)], SchedulingAlgorithm::FCFS);
    assert_eq!(jobs, vec![job(2, 0, 3), job(1, 4, 2)]);
}

#[test]
fn fcfs_idle_gap_advances_clock() {
    let (jobs, stats) = run(vec![proc(1, 0, 2, 0), proc(2, 5, 3, 0)], SchedulingAlgorithm::FCFS);
    assert_eq!(jobs, vec![job(1, 0, 2), job(2, 5, 3)]);
    assert_eq!(stats.get_process_stats(2).unwrap().waiting_time, 0);
    assert_eq!(stats.get_process_stats(2).unwrap().completion_time, 8);
}

fn four_processes() -> Vec<Process> {
    vec![proc(1, 0, 7, 0), proc(2, 2, 4, 0), proc(3, 4, 1, 0), proc(4, 5, 4, 0)]
}

#[test]
fn sjf_picks_shortest_ready_job() {
    let (jobs, stats) = run(four_processes(), SchedulingAlgorithm::SJF);
    assert_eq!(jobs, vec![job(1, 0, 7), job(3, 7, 1), job(2, 8, 4), job(4, 12, 4)]);
    assert_eq!(stats.average_waiting_time().unwrap(), Average { total: 16, count: 4 });
}

#[test]
fn srtf_preempts_on_shorter_arrival() {
    let (jobs, stats) = run(four_processes(), SchedulingAlgorithm::SRTF);
    assert_eq!(
        jobs,
        vec![job(1, 0, 2), job(2, 2, 2), job(3, 4, 1), job(2, 5, 2), job(4, 7, 4), job(1, 11, 5)]
    );
    assert_eq!(stats.get_process_stats(1).unwrap().completion_time, 16);
    assert_eq!(stats.get_process_stats(1).unwrap().waiting_time, 9);
}

#[test]
fn srtf_uninterrupted_run_is_one_job() {
    let (jobs, _) = run(vec![proc(1, 0, 5, 0), proc(2, 1, 10, 0)], SchedulingAlgorithm::SRTF);
    assert_eq!(jobs, vec![job(1, 0, 5), job(2, 5, 10)]);
}

fn prioritised() -> Vec<Process> {
    vec![proc(1, 0, 4, 2), proc(2, 1, 3, 1), proc(3, 2, 1, 0)]
}

#[test]
fn priority_runs_most_urgent_ready_job() {
    let (jobs, _) = run(prioritised(), SchedulingAlgorithm::Priority);
    assert_eq!(jobs, vec![job(1, 0, 4), job(3, 4, 1), job(2, 5, 3)]);
}

#[test]
fn preemptive_priority_interrupts_less_urgent() {
    let (jobs, stats) = run(prioritised(), SchedulingAlgorithm::PriorityPreemptive);
    assert_eq!(jobs, vec![job(1, 0, 1), job(2, 1, 1), job(3, 2, 1), job(2, 3, 2), job(1, 5, 3)]);
    assert_eq!(stats.get_process_stats(1).unwrap().waiting_time, 4);
}

#[test]
fn preemptive_priority_equal_priority_does_not_preempt() {
    let (jobs, _) = run(vec![proc(1, 0, 4, 1), proc(2, 1, 2, 1)], SchedulingAlgorithm::PriorityPreemptive);
    assert_eq!(jobs, vec![job(1, 0, 4), job(2, 4, 2)]);
}

#[test]
fn round_robin_example_segments() {
    let (jobs, stats) = run(vec![proc(1, 0, 5, 0), proc(2, 1, 3, 0)], SchedulingAlgorithm::RoundRobin(2));
    assert_eq!(jobs, vec![job(1, 0, 2), job(2, 2, 2), job(1, 4, 2), job(2, 6, 1), job(1, 7, 1)]);
    assert_eq!(stats.get_process_stats(2).unwrap().completion_time, 7);
    assert_eq!(stats.get_process_stats(1).unwrap().completion_time, 8);
}

#[test]
fn round_robin_slices_never_exceed_quantum() {
    let (jobs, _) = run(vec![proc(1, 0, 7, 0)], SchedulingAlgorithm::RoundRobin(3));
    assert_eq!(jobs, vec![job(1, 0, 3), job(1, 3, 3), job(1, 6, 1)]);
    assert!(jobs.iter().all(|j| j.duration <= 3));
}

#[test]
fn round_robin_zero_quantum_is_rejected() {
    let r = simulate(&vec![proc(1, 0, 2, 0)], SchedulingAlgorithm::RoundRobin(0));
    assert_eq!(r.err(), Some(SchedError::InvalidProcess));
}

#[test]
fn job_durations_add_up_to_bursts() {
    let algos = [
        SchedulingAlgorithm::FCFS,
        SchedulingAlgorithm::SJF,
        SchedulingAlgorithm::SRTF,
        SchedulingAlgorithm::Priority,
        SchedulingAlgorithm::PriorityPreemptive,
        SchedulingAlgorithm::RoundRobin(2),
    ];
    let ps = vec![proc(1, 0, 7, 3), proc(2, 2, 4, 1), proc(3, 4, 1, 2), proc(4, 5, 4, 0), proc(5, 20, 2, 1)];
    for algo in algos {
        let (jobs, stats) = run(ps.clone(), algo);
        for p in &ps {
            let total: u32 = jobs.iter().filter(|j| j.id == p.id).map(|j| j.duration).sum();
            assert_eq!(total, p.burst_time);
            let st = stats.get_process_stats(p.id).unwrap();
            assert_eq!(st.turnaround_time, st.completion_time - p.arrival_time);
            assert_eq!(st.waiting_time, st.turnaround_time - p.burst_time);
        }
    }
}

#[test]
fn duplicate_ids_are_rejected() {
    let r = simulate(&vec![proc(1, 0, 2, 0), proc(1, 1, 3, 0)], SchedulingAlgorithm::FCFS);
    assert_eq!(r.err(), Some(SchedError::InvalidProcess));
}

#[test]
fn zero_burst_is_rejected() {
    assert_eq!(Process::new(0, 0, None).err(), Some(SchedError::InvalidProcess));
    assert_eq!(Process::with_id(4, 0, 0, Some(1)).err(), Some(SchedError::InvalidProcess));
    let bad = vec![Process { id: 1, arrival_time: 0, burst_time: 0, priority: 0 }];
    assert_eq!(simulate(&bad, SchedulingAlgorithm::SJF).err(), Some(SchedError::InvalidProcess));
}

#[test]
fn clock_overflow_is_rejected() {
    let r = simulate(&vec![proc(1, u32::MAX - 3, 2, 0), proc(2, 0, 2, 0)], SchedulingAlgorithm::FCFS);
    assert_eq!(r.err(), Some(SchedError::TimeOverflow));
    let r = simulate(&vec![proc(1, u32::MAX - 4, 2, 0), proc(2, 0, 2, 0)], SchedulingAlgorithm::FCFS);
    assert!(r.is_ok());
}

#[test]
fn empty_input_gives_empty_schedule() {
    let (jobs, stats) = run(vec![], SchedulingAlgorithm::SRTF);
    assert!(jobs.is_empty());
    assert_eq!(stats.average_waiting_time(), Err(SchedError::EmptyStatistics));
    assert_eq!(stats.average_turnaround_time(), Err(SchedError::EmptyStatistics));
}

#[test]
fn process_new_defaults_priority() {
    let p = Process::new(3, 4, None).unwrap();
    assert_eq!((p.arrival_time, p.burst_time, p.priority), (3, 4, 0));
    let q = Process::new(1, 2, Some(5)).unwrap();
    assert_eq!(q.priority, 5);
}

#[test]
fn job_new_covers_whole_burst() {
    let p = proc(6, 2, 9, 0);
    assert_eq!(Job::new(&p, 11), job(6, 11, 9));
}

#[test]
fn process_stats_new_derives_times() {
    let p = proc(2, 1, 3, 0);
    let s = ProcessStats::new(&p, 8).unwrap();
    assert_eq!(
        s,
        ProcessStats { process_id: 2, arrival_time: 1, completion_time: 8, turnaround_time: 7, waiting_time: 4 }
    );
}

#[test]
fn stats_add_replaces_same_process() {
    let mut st = SchedulingStats::new();
    assert!(st.get_process_stats(1).is_none());
    st.add_process_stats(ProcessStats::new(&proc(1, 0, 2, 0), 5).unwrap());
    st.add_process_stats(ProcessStats::new(&proc(2, 0, 1, 0), 6).unwrap());
    st.add_process_stats(ProcessStats::new(&proc(1, 0, 2, 0), 2).unwrap());
    assert_eq!(st.len(), 2);
    assert_eq!(st.get_process_stats(1).unwrap().completion_time, 2);
    assert_eq!(st.average_waiting_time().unwrap(), Average { total: 5, count: 2 });
    assert_eq!(st.average_turnaround_time().unwrap(), Average { total: 8, count: 2 });
}

#[test]
fn next_slice_decisions() {
    let ps = vec![proc(1, 0, 7, 0), proc(2, 2, 4, 0), proc(3, 9, 1, 0)];
    let rem = vec![5u32, 4, 1];
    assert_eq!(next_slice(SchedulingAlgorithm::SRTF, &ps, &rem, 2), Some((1, 4)));
    assert_eq!(next_slice(SchedulingAlgorithm::FCFS, &ps, &rem, 2), Some((0, 5)));
    assert_eq!(next_slice(SchedulingAlgorithm::SRTF, &ps, &vec![5u32, 0, 1], 2), Some((0, 5)));
    assert_eq!(next_slice(SchedulingAlgorithm::PriorityPreemptive, &ps, &vec![9u32, 4, 1], 2), Some((0, 7)));
    assert_eq!(next_slice(SchedulingAlgorithm::RoundRobin(3), &ps, &rem, 2), Some((0, 3)));
    assert_eq!(next_slice(SchedulingAlgorithm::SJF, &ps, &vec![0u32, 0, 1], 2), None);
}

#[test]
fn process_stats_new_rejects_early_completion() {
    let p = proc(2, 4, 3, 0);
    assert_eq!(ProcessStats::new(&p, 6), Err(SchedError::InvariantViolation));
    assert_eq!(ProcessStats::new(&p, 7).unwrap().waiting_time, 0);
}

#[test]
fn fcfs_scheduler_appends_to_earlier_runs() {
    let mut s = FCFSScheduler::new();
    s.submit(proc(1, 0, 2, 0)).unwrap();
    assert_eq!(s.schedule(), Ok(()));
    s.submit(proc(2, 1, 3, 0)).unwrap();
    assert_eq!(s.schedule(), Ok(()));
    assert_eq!(s.jobs, vec![job(1, 0, 2), job(2, 1, 3)]);
    assert_eq!(s.stats.len(), 2);
    assert_eq!(s.stats.get_process_stats(1).unwrap().completion_time, 2);
    assert_eq!(s.stats.get_process_stats(2).unwrap().completion_time, 4);
    assert_eq!(s.schedule(), Ok(()));
    assert_eq!(s.jobs.len(), 2);
}

#[test]
fn process_ids_are_handed_out_once() {
    let mut ids = cpu_sched::ProcessIds::new();
    let a = ids.create(0, 3, None).unwrap();
    let b = ids.create(1, 2, Some(4)).unwrap();
    assert_eq!((a.id, b.id), (0, 1));
    assert_eq!(ids.create(2, 0, None).err(), Some(SchedError::InvalidProcess));
    let c = ids.create(2, 1, None).unwrap();
    assert_eq!(c.id, 2);
    assert_eq!(b.priority, 4);
}

#[test]
fn srtf_preempts_at_arrival_of_shorter_job() {
    let (jobs, _) = run(vec![proc(1, 0, 8, 0), proc(2, 3, 2, 0)], SchedulingAlgorithm::SRTF);
    assert_eq!(jobs, vec![job(1, 0, 3), job(2, 3, 2), job(1, 5, 5)]);
}
