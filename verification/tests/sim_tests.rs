use sched_sim::job::Job;
use sched_sim::cluster::Cluster;
use sched_sim::algos::{Scheduler, FCFS, FF, SJF, FCFSEasy};
use sched_sim::engine::{DebugLevel, Engine, EngineError};

fn two_jobs_first_example() -> Vec<Job> {
    vec![Job::new(1, 4, 0, 10, 10), Job::new(2, 2, 1, 5, 5)]
}

fn two_jobs_second_example() -> Vec<Job> {
    vec![Job::new(1, 4, 0, 10, 10), Job::new(2, 2, 1, 3, 3)]
}

fn check_first_example(report: sched_sim::engine::EngineReport, name: &str) {
    assert_eq!(report.scheduler_name, name);
    assert_eq!(report.makespan, 15);
    assert_eq!(report.min_wait, 0);
    assert_eq!(report.max_wait, 9);
    assert_eq!(report.median_wait, 9);
    assert_eq!(report.total_wait, 9);
    assert_eq!(report.avg_wait, 4);
    assert_eq!(report.total_completion_time, 25);
    assert_eq!(report.used_ressources, 50);
    assert_eq!(report.idle, 10);
    assert_eq!(report.idle_percent, 16);
}

#[test]
fn first_example_fcfs() {
    let mut engine = Engine::new(FCFS, 4, two_jobs_first_example(), DebugLevel::Quiet);
    let report = engine.run().unwrap();
    check_first_example(report, "FCFS");
}

#[test]
fn first_example_ff() {
    let mut engine = Engine::new(FF, 4, two_jobs_first_example(), DebugLevel::Quiet);
    let report = engine.run().unwrap();
    check_first_example(report, "FF");
}

#[test]
fn first_example_sjf() {
    let mut engine = Engine::new(SJF, 4, two_jobs_first_example(), DebugLevel::Quiet);
    let report = engine.run().unwrap();
    check_first_example(report, "SJF");
}

#[test]
fn first_example_backfill() {
    let mut engine = Engine::new(FCFSEasy, 4, two_jobs_first_example(), DebugLevel::Quiet);
    let report = engine.run().unwrap();
    check_first_example(report, "FCFSEasy");
}

#[test]
fn second_example_backfill_waits_for_free_nodes() {
    // The short job fits the reservation window but no node is free at its
    // arrival, so it cannot backfill and starts only when the big job ends.
    let mut engine = Engine::new(FCFSEasy, 4, two_jobs_second_example(), DebugLevel::Quiet);
    let report = engine.run().unwrap();
    assert_eq!(report.makespan, 13);
    assert_eq!(report.min_wait, 0);
    assert_eq!(report.max_wait, 9);
    assert_eq!(report.total_wait, 9);
    assert_eq!(report.total_completion_time, 23);
    assert_eq!(report.used_ressources, 46);
    assert_eq!(report.idle, 6);
    assert_eq!(report.idle_percent, 11);
}

#[test]
fn empty_trace_yields_no_report() {
    let mut engine = Engine::new(FCFS, 4, Vec::new(), DebugLevel::Quiet);
    assert!(engine.run().is_none());
}

#[test]
fn zero_makespan_yields_no_report() {
    // One job that arrives at time zero and runs for zero seconds: the
    // clock never advances, so the utilization figures are undefined.
    let jobs = vec![Job::new(1, 1, 0, 0, 0)];
    let mut engine = Engine::new(FCFS, 4, jobs, DebugLevel::Quiet);
    assert!(engine.run().is_none());
}

#[test]
fn fcfs_blocks_at_head_ff_does_not() {
    let mut cluster = Cluster::new(4);
    assert!(cluster.schedule_job(Job::new(9, 2, 0, 10, 10), 0));
    // Two nodes are left: the head job needs four, the later one fits.
    let jobs = vec![Job::new(1, 4, 0, 5, 5), Job::new(2, 2, 0, 5, 5)];
    assert_eq!(FCFS.schedule(0, &jobs, &cluster), None);
    assert_eq!(FF.schedule(0, &jobs, &cluster), Some(1));
}

#[test]
fn fcfs_takes_fitting_head() {
    let cluster = Cluster::new(4);
    let jobs = vec![Job::new(1, 4, 0, 5, 5), Job::new(2, 1, 0, 1, 1)];
    assert_eq!(FCFS.schedule(0, &jobs, &cluster), Some(0));
    assert_eq!(FF.schedule(0, &jobs, &cluster), Some(0));
    assert_eq!(FCFSEasy.schedule(0, &jobs, &cluster), Some(0));
}

#[test]
fn sjf_picks_shortest_then_lowest_id() {
    let cluster = Cluster::new(4);
    // All fit; id 3 ties with id 5 on requested runtime and wins.
    let jobs = vec![
        Job::new(5, 1, 0, 7, 7),
        Job::new(8, 1, 0, 9, 9),
        Job::new(3, 1, 0, 7, 7),
    ];
    assert_eq!(SJF.schedule(0, &jobs, &cluster), Some(2));
}

#[test]
fn sjf_skips_jobs_that_do_not_fit() {
    let mut cluster = Cluster::new(4);
    assert!(cluster.schedule_job(Job::new(9, 3, 0, 10, 10), 0));
    // The shortest job needs too many nodes; the longer small one runs.
    let jobs = vec![Job::new(1, 4, 0, 2, 2), Job::new(2, 1, 0, 8, 8)];
    assert_eq!(SJF.schedule(0, &jobs, &cluster), Some(1));
}

#[test]
fn backfill_admits_short_fitting_job() {
    let mut cluster = Cluster::new(4);
    // One running job on two nodes, expected to end at time ten.
    assert!(cluster.schedule_job(Job::new(9, 2, 0, 10, 10), 0));
    // The head needs four nodes: reservation window is ten. The later job
    // asks three seconds, below the window, and fits the two free nodes.
    let jobs = vec![Job::new(1, 4, 0, 5, 5), Job::new(2, 2, 0, 3, 3)];
    assert_eq!(FCFSEasy.schedule(0, &jobs, &cluster), Some(1));
}

#[test]
fn backfill_rejects_job_at_window_boundary() {
    let mut cluster = Cluster::new(4);
    assert!(cluster.schedule_job(Job::new(9, 2, 0, 10, 10), 0));
    // Requested runtime equals the window: must not be backfilled.
    let jobs = vec![Job::new(1, 4, 0, 5, 5), Job::new(2, 2, 0, 10, 10)];
    assert_eq!(FCFSEasy.schedule(0, &jobs, &cluster), None);
}

#[test]
fn backfill_needs_nodes_free_now() {
    let mut cluster = Cluster::new(4);
    assert!(cluster.schedule_job(Job::new(9, 4, 0, 10, 10), 0));
    // The candidate fits the window but no node is free right now.
    let jobs = vec![Job::new(1, 4, 1, 5, 5), Job::new(2, 2, 1, 3, 3)];
    assert_eq!(FCFSEasy.schedule(1, &jobs, &cluster), None);
}

#[test]
fn backfill_window_uses_sorted_requested_runtimes() {
    let mut cluster = Cluster::new(4);
    // Two running jobs; freeing the shorter-requested one already gives
    // the head job room, so the window ends at that job's expected end.
    assert!(cluster.schedule_job(Job::new(8, 2, 0, 20, 20), 0));
    assert!(cluster.schedule_job(Job::new(9, 2, 0, 5, 5), 0));
    // Head needs two nodes once two are free: window is five.
    let jobs = vec![Job::new(1, 2, 0, 9, 9), Job::new(2, 2, 0, 4, 4)];
    // Requested four is under the five-second window, but no nodes are
    // free now, so nothing starts.
    assert_eq!(FCFSEasy.schedule(0, &jobs, &cluster), None);
}

#[test]
fn cluster_admission_and_release_keep_capacity() {
    let mut cluster = Cluster::new(8);
    assert_eq!(cluster.available_nodes, 8);
    assert!(cluster.schedule_job(Job::new(1, 3, 0, 5, 5), 0));
    assert_eq!(cluster.available_nodes, 5);
    assert!(cluster.schedule_job(Job::new(2, 5, 0, 7, 7), 0));
    assert_eq!(cluster.available_nodes, 0);
    cluster.finish_job(1);
    assert_eq!(cluster.available_nodes, 3);
    assert_eq!(cluster.used_resources, 15);
    cluster.finish_job(2);
    assert_eq!(cluster.available_nodes, 8);
    assert_eq!(cluster.used_resources, 50);
}

#[test]
fn cluster_refuses_oversized_job() {
    let mut cluster = Cluster::new(4);
    assert!(!cluster.schedule_job(Job::new(1, 5, 0, 5, 5), 0));
    assert_eq!(cluster.available_nodes, 4);
}

#[test]
fn cluster_refuses_double_admission() {
    let mut cluster = Cluster::new(8);
    let mut job = Job::new(1, 2, 0, 5, 5);
    job.set_scheduled(0);
    assert!(!cluster.schedule_job(job, 1));
    assert_eq!(cluster.available_nodes, 8);
    // A fresh job under an id that is already running is refused too.
    assert!(cluster.schedule_job(Job::new(2, 2, 0, 5, 5), 0));
    assert!(!cluster.schedule_job(Job::new(2, 1, 0, 3, 3), 0));
    assert_eq!(cluster.available_nodes, 6);
}

#[test]
fn cluster_ignores_unknown_completion() {
    let mut cluster = Cluster::new(4);
    cluster.finish_job(77);
    assert_eq!(cluster.available_nodes, 4);
    assert_eq!(cluster.used_resources, 0);
}

#[test]
fn utilization_figures() {
    let mut cluster = Cluster::new(4);
    assert!(cluster.schedule_job(Job::new(1, 2, 0, 5, 5), 0));
    cluster.finish_job(1);
    let (total, idle, idle_percent) = cluster.utilization(10).unwrap();
    assert_eq!(total, 40);
    assert_eq!(idle, 30);
    assert_eq!(idle_percent, 75);
    assert!(cluster.utilization(0).is_none());
}

#[test]
fn job_transitions_and_wait_times() {
    let mut job = Job::new(7, 2, 3, 9, 11);
    assert!(!job.scheduled);
    assert_eq!(job.wait_time_from(8), 5);
    job.set_scheduled(5);
    assert!(job.scheduled);
    assert_eq!(job.schedule_time, 5);
    assert_eq!(job.expected_end, 16);
    assert_eq!(job.wait_time(), 2);
}

#[test]
fn job_equality_goes_by_id() {
    let a = Job::new(1, 2, 0, 5, 5);
    let b = Job::new(1, 9, 4, 8, 8);
    let c = Job::new(2, 2, 0, 5, 5);
    assert!(a == b);
    assert!(a != c);
}

#[test]
fn scheduler_names() {
    assert_eq!(FCFS.name(), "FCFS");
    assert_eq!(FF.name(), "FF");
    assert_eq!(SJF.name(), "SJF");
    assert_eq!(FCFSEasy.name(), "FCFSEasy");
}

#[test]
fn debug_levels_are_ordered() {
    assert!(DebugLevel::Verbose.at_least(&DebugLevel::Info));
    assert!(DebugLevel::Info.at_least(&DebugLevel::Quiet));
    assert!(!DebugLevel::Quiet.at_least(&DebugLevel::Info));
    assert!(DebugLevel::Info.at_least(&DebugLevel::Info));
}

#[test]
fn engine_error_messages() {
    assert_eq!(EngineError::ReadError.message(), "unable to read the input file");
    assert_eq!(EngineError::ParseError.message(), "unable to parse the input file");
}

#[test]
fn completion_frees_nodes_before_same_instant_arrival() {
    // A job finishing at the very instant another arrives must release its
    // nodes first, so the arrival can start immediately.
    let jobs = vec![Job::new(1, 4, 0, 10, 10), Job::new(2, 4, 10, 5, 5)];
    let mut engine = Engine::new(FCFS, 4, jobs, DebugLevel::Quiet);
    let report = engine.run().unwrap();
    assert_eq!(report.makespan, 15);
    assert_eq!(report.max_wait, 0);
    assert_eq!(report.total_wait, 0);
}

#[test]
fn backfill_run_lets_small_job_jump_ahead() {
    // Cluster of four: a two-node job runs first; the four-node head must
    // wait; a short two-node job backfills at its arrival.
    let jobs = vec![
        Job::new(1, 2, 0, 10, 10),
        Job::new(2, 4, 1, 5, 5),
        Job::new(3, 2, 2, 3, 3),
    ];
    let mut engine = Engine::new(FCFSEasy, 4, jobs.clone(), DebugLevel::Quiet);
    let report = engine.run().unwrap();
    // Job 3 starts at time two, ends at five; job 2 starts at ten.
    assert_eq!(report.makespan, 15);
    assert_eq!(report.total_wait, 9);
    assert_eq!(report.max_wait, 9);
    // Strict first-come-first-served keeps job 3 behind job 2 instead.
    let mut engine = Engine::new(FCFS, 4, jobs, DebugLevel::Quiet);
    let report = engine.run().unwrap();
    assert_eq!(report.makespan, 18);
    assert_eq!(report.total_wait, 22);
}

#[test]
fn duplicate_ids_are_not_double_admitted() {
    // Two jobs under one id: the second admission is refused, its ghost
    // completion later is a harmless no-op, and capacity stays sound.
    let jobs = vec![Job::new(1, 2, 0, 10, 10), Job::new(1, 2, 0, 5, 5)];
    let mut engine = Engine::new(FCFS, 4, jobs, DebugLevel::Quiet);
    let report = engine.run().unwrap();
    assert_eq!(report.makespan, 10);
    assert_eq!(report.total_wait, 0);
    assert_eq!(report.used_ressources, 10);
    assert_eq!(report.idle_percent, 75);
}

#[test]
fn wait_totals_saturate_at_u64_max() {
    // Eight enormous jobs queue up on one node; the summed waits exceed
    // 64 bits and the totals saturate instead of overflowing.
    let r = u64::MAX / 24;
    let jobs: Vec<Job> = (1..=8).map(|i| Job::new(i, 1, 0, r, r)).collect();
    let mut engine = Engine::new(FCFS, 1, jobs, DebugLevel::Quiet);
    let report = engine.run().unwrap();
    assert_eq!(report.makespan, 8 * r);
    assert_eq!(report.min_wait, 0);
    assert_eq!(report.max_wait, 7 * r);
    assert_eq!(report.median_wait, 4 * r);
    assert_eq!(report.total_wait, u64::MAX);
    assert_eq!(report.total_completion_time, u64::MAX);
    assert_eq!(report.avg_wait, u64::MAX / 8);
    assert_eq!(report.used_ressources, 8 * r);
    assert_eq!(report.idle, 0);
    assert_eq!(report.idle_percent, 0);
}
