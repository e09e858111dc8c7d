//! Tests for the tick state machine: readiness polling, priority
//! propagation, stall eviction, and budgeted priority-ordered selection.

use gigs::input::combine_all;
use gigs::input::JobInputReady;
use gigs::meta::Priority;
use gigs::router::CompletionRouter;
use gigs::runner::JobStatus;
use gigs::runner::Scheduler;
use gigs::JobError;
use gigs::JobExecutionSettings;

fn settings(budget: u32, stall: u32) -> JobExecutionSettings {
    JobExecutionSettings { max_jobs_per_frame: budget, time_out_frames: stall }
}

/// One full tick in which the host reports the given poll results and
/// every selected job runs successfully.
fn tick(s: &mut Scheduler, router: &mut CompletionRouter, polls: &Vec<(u64, JobInputReady)>) -> Vec<u64> {
    s.check_job_inputs(polls, router);
    s.cancel_stalled_jobs(router);
    let batch = s.select_jobs();
    let results: Vec<(u64, bool)> = batch.iter().map(|&id| (id, true)).collect();
    s.apply_run_results(&results, router);
    s.increment_frames_stalled();
    batch
}

#[test]
fn readiness_combination() {
    assert_eq!(combine_all(&vec![]), JobInputReady::Ready);
    assert_eq!(
        combine_all(&vec![JobInputReady::Ready, JobInputReady::Ready]),
        JobInputReady::Ready
    );
    assert_eq!(
        combine_all(&vec![JobInputReady::Ready, JobInputReady::Wait]),
        JobInputReady::Wait
    );
    assert_eq!(
        combine_all(&vec![JobInputReady::Wait, JobInputReady::Fail, JobInputReady::Ready]),
        JobInputReady::Fail
    );
    assert_eq!(
        JobInputReady::Fail.combine(JobInputReady::Ready),
        JobInputReady::Fail
    );
    assert_eq!(
        JobInputReady::Wait.combine(JobInputReady::Ready),
        JobInputReady::Wait
    );
}

#[test]
fn default_settings() {
    let s = JobExecutionSettings::default();
    assert_eq!(s.max_jobs_per_frame, 16);
    assert_eq!(s.time_out_frames, 16);
    let p = gigs::GraphicsJobsPlugin::default();
    assert_eq!(p.settings.max_jobs_per_frame, 16);
    assert_eq!(p.settings.time_out_frames, 16);
}

#[test]
fn propagation_diamond_no_double_count() {
    let mut s = Scheduler::new(settings(16, 16));
    // A diamond: job 4 depends on 2 and 3, which both depend on 1.
    s.accept_job(1, None, Priority::NonCritical(1), vec![]);
    s.accept_job(2, None, Priority::NonCritical(2), vec![1]);
    s.accept_job(3, None, Priority::NonCritical(3), vec![1]);
    s.accept_job(4, None, Priority::NonCritical(10), vec![2, 3]);
    // Accepting 2 and 3 each propagated into 1; accepting 4 propagated
    // into 2, 3, and — once, despite the two paths — into 1.
    let computed: Vec<(u64, Priority)> = s.jobs.iter().map(|j| (j.id, j.computed)).collect();
    assert_eq!(
        computed,
        vec![
            (1, Priority::NonCritical(1 + 2 + 3 + 10)),
            (2, Priority::NonCritical(2 + 10)),
            (3, Priority::NonCritical(3 + 10)),
            (4, Priority::NonCritical(10)),
        ]
    );
}

#[test]
fn propagation_cycle_terminates() {
    let mut s = Scheduler::new(settings(16, 16));
    // 1 and 2 depend on each other; 2 also names itself.
    s.accept_job(1, None, Priority::NonCritical(5), vec![2]);
    s.accept_job(2, None, Priority::NonCritical(7), vec![1, 2]);
    let computed: Vec<(u64, Priority)> = s.jobs.iter().map(|j| (j.id, j.computed)).collect();
    // Accepting 2 adds 7 into 1 exactly once, cycling back to 2 without
    // re-counting; 2 keeps its own priority alone.
    assert_eq!(
        computed,
        vec![(1, Priority::NonCritical(5 + 7)), (2, Priority::NonCritical(7))]
    );
}

#[test]
fn propagation_of_critical_dependent() {
    let mut s = Scheduler::new(settings(16, 16));
    s.accept_job(1, None, Priority::NonCritical(1), vec![]);
    s.accept_job(2, None, Priority::Critical, vec![1]);
    // A critical dependent makes its dependency critical too.
    assert_eq!(s.jobs[0].computed, Priority::Critical);
    assert_eq!(s.jobs[0].priority, Priority::NonCritical(1));
    assert_eq!(s.jobs[1].computed, Priority::Critical);
}

#[test]
fn stalled_eviction_exact_tick() {
    let max_stall = 2;
    let mut s = Scheduler::new(settings(16, max_stall));
    let mut router = CompletionRouter::new();
    s.accept_job(9, Some(90), Priority::NonCritical(1), vec![]);
    let polls = vec![(9u64, JobInputReady::Wait)];
    // The job survives max_stall + 1 full ticks of remaining `Waiting`.
    for tick_number in 1..=(max_stall + 1) {
        let batch = tick(&mut s, &mut router, &polls);
        assert!(batch.is_empty());
        let deliveries = router.sync_completed_jobs();
        assert!(deliveries.is_empty(), "evicted too early, tick {}", tick_number);
        assert_eq!(s.jobs.len(), 1);
        assert_eq!(s.jobs[0].stalled, tick_number);
    }
    // On the next tick it is evicted with `Stalled`.
    let batch = tick(&mut s, &mut router, &polls);
    assert!(batch.is_empty());
    assert!(s.jobs.is_empty());
    let deliveries = router.sync_completed_jobs();
    assert_eq!(deliveries.len(), 1);
    assert_eq!(deliveries[0].target, 9);
    assert_eq!(deliveries[0].event.0, Err(JobError::Stalled));
    let origin_deliveries = router.sync_completed_jobs_main_world();
    assert_eq!(origin_deliveries.len(), 1);
    assert_eq!(origin_deliveries[0].target, 90);
    assert_eq!(origin_deliveries[0].event.0, Err(JobError::Stalled));
}

#[test]
fn inputs_failed_evicts_immediately() {
    let mut s = Scheduler::new(settings(16, 16));
    let mut router = CompletionRouter::new();
    s.accept_job(5, Some(50), Priority::Critical, vec![]);
    // Budget and priority would let it run, but the failure wins.
    let polls = vec![(5u64, JobInputReady::Fail)];
    let batch = tick(&mut s, &mut router, &polls);
    assert!(batch.is_empty());
    assert!(s.jobs.is_empty());
    let deliveries = router.sync_completed_jobs();
    assert_eq!(deliveries.len(), 1);
    assert_eq!(deliveries[0].target, 5);
    assert_eq!(deliveries[0].event.0, Err(JobError::InputsFailed));
}

#[test]
fn execution_failure_is_reported() {
    let mut s = Scheduler::new(settings(16, 16));
    let mut router = CompletionRouter::new();
    s.accept_job(3, Some(30), Priority::NonCritical(4), vec![]);
    let polls = vec![(3u64, JobInputReady::Ready)];
    s.check_job_inputs(&polls, &mut router);
    s.cancel_stalled_jobs(&mut router);
    let batch = s.select_jobs();
    assert_eq!(batch, vec![3]);
    s.apply_run_results(&vec![(3, false)], &mut router);
    s.increment_frames_stalled();
    assert!(s.jobs.is_empty());
    let deliveries = router.sync_completed_jobs();
    assert_eq!(deliveries.len(), 1);
    assert_eq!(deliveries[0].event.0, Err(JobError::ExecutionFailed));
    let origin_deliveries = router.sync_completed_jobs_main_world();
    assert_eq!(origin_deliveries.len(), 1);
    assert_eq!(origin_deliveries[0].target, 30);
}

#[test]
fn budget_takes_top_weights_in_order() {
    let mut s = Scheduler::new(settings(16, 16));
    let mut router = CompletionRouter::new();
    // 20 ready non-critical jobs of distinct weights 1..=20, accepted in a
    // scrambled order.
    let weights: Vec<u32> = vec![
        7, 14, 1, 20, 3, 18, 5, 12, 9, 16, 2, 19, 4, 11, 6, 13, 8, 15, 10, 17,
    ];
    let mut polls: Vec<(u64, JobInputReady)> = Vec::new();
    for (i, &w) in weights.iter().enumerate() {
        let id = (i + 1) as u64;
        s.accept_job(id, None, Priority::NonCritical(w), vec![]);
        polls.push((id, JobInputReady::Ready));
    }
    s.check_job_inputs(&polls, &mut router);
    s.cancel_stalled_jobs(&mut router);
    let batch = s.select_jobs();
    // Exactly the 16 highest weights run, in descending weight order.
    assert_eq!(batch.len(), 16);
    let batch_weights: Vec<u32> = batch
        .iter()
        .map(|&id| weights[(id - 1) as usize])
        .collect();
    let expected: Vec<u32> = (5..=20).rev().collect();
    assert_eq!(batch_weights, expected);
    // The remaining 4 stay `Ready` candidates with their stall counters
    // incremented.
    let results: Vec<(u64, bool)> = batch.iter().map(|&id| (id, true)).collect();
    s.apply_run_results(&results, &mut router);
    s.increment_frames_stalled();
    assert_eq!(s.jobs.len(), 4);
    let mut leftover: Vec<u32> = s
        .jobs
        .iter()
        .map(|j| match j.computed {
            Priority::NonCritical(w) => w,
            Priority::Critical => panic!("no critical job was accepted"),
        })
        .collect();
    leftover.sort();
    assert_eq!(leftover, vec![1, 2, 3, 4]);
    for j in s.jobs.iter() {
        assert_eq!(j.status, JobStatus::Ready);
        assert_eq!(j.stalled, 1);
    }
}

#[test]
fn critical_jobs_exceed_budget() {
    let mut s = Scheduler::new(settings(4, 16));
    let mut router = CompletionRouter::new();
    let mut polls: Vec<(u64, JobInputReady)> = Vec::new();
    for i in 1..=6u64 {
        s.accept_job(i, None, Priority::NonCritical(i as u32), vec![]);
        polls.push((i, JobInputReady::Ready));
    }
    for i in 7..=9u64 {
        s.accept_job(i, None, Priority::Critical, vec![]);
        polls.push((i, JobInputReady::Ready));
    }
    s.check_job_inputs(&polls, &mut router);
    s.cancel_stalled_jobs(&mut router);
    let batch = s.select_jobs();
    // All 3 critical jobs run, plus a full budget of 4 non-critical ones:
    // the batch exceeds the budget by the number of critical jobs.
    assert_eq!(batch.len(), 4 + 3);
    assert!(batch.contains(&7) && batch.contains(&8) && batch.contains(&9));
    // Critical jobs sort above all non-critical ones.
    let criticals: Vec<u64> = batch.iter().copied().take(3).collect();
    let mut sorted_criticals = criticals.clone();
    sorted_criticals.sort();
    assert_eq!(sorted_criticals, vec![7, 8, 9]);
    // The non-critical tail is the 4 highest weights, descending.
    let tail: Vec<u64> = batch.iter().copied().skip(3).collect();
    assert_eq!(tail, vec![6, 5, 4, 3]);
}

#[test]
fn unpolled_jobs_keep_waiting() {
    let mut s = Scheduler::new(settings(16, 16));
    let mut router = CompletionRouter::new();
    s.accept_job(11, None, Priority::NonCritical(2), vec![]);
    let polls: Vec<(u64, JobInputReady)> = Vec::new();
    let batch = tick(&mut s, &mut router, &polls);
    assert!(batch.is_empty());
    assert_eq!(s.jobs.len(), 1);
    assert_eq!(s.jobs[0].status, JobStatus::Waiting);
    assert_eq!(s.jobs[0].stalled, 1);
}

#[test]
fn selection_is_deterministic_for_ties() {
    let mut s = Scheduler::new(settings(2, 16));
    let mut router = CompletionRouter::new();
    let mut polls: Vec<(u64, JobInputReady)> = Vec::new();
    // Four ready jobs of equal weight compete for a budget of two.
    for i in 1..=4u64 {
        s.accept_job(i, None, Priority::NonCritical(5), vec![]);
        polls.push((i, JobInputReady::Ready));
    }
    s.check_job_inputs(&polls, &mut router);
    s.cancel_stalled_jobs(&mut router);
    let first = s.select_jobs();
    let second = s.select_jobs();
    assert_eq!(first.len(), 2);
    // Repeated selection over the same snapshot does not reorder ties.
    assert_eq!(first, second);
}

#[test]
fn zero_budget_runs_only_critical_jobs() {
    let mut s = Scheduler::new(settings(0, 16));
    let mut router = CompletionRouter::new();
    s.accept_job(1, None, Priority::NonCritical(100), vec![]);
    s.accept_job(2, None, Priority::Critical, vec![]);
    let polls = vec![(1u64, JobInputReady::Ready), (2u64, JobInputReady::Ready)];
    s.check_job_inputs(&polls, &mut router);
    s.cancel_stalled_jobs(&mut router);
    let batch = s.select_jobs();
    assert_eq!(batch, vec![2]);
}
