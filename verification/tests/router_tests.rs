//! Tests for the completion router: the two-hop delivery of job outcomes
//! across the context boundary, and the full round trip of a successful
//! job.

use gigs::input::JobInputReady;
use gigs::meta::Priority;
use gigs::router::CompletionRouter;
use gigs::runner::Scheduler;
use gigs::JobExecutionSettings;

#[test]
fn round_trip_single_completion() {
    let mut s = Scheduler::new(JobExecutionSettings::default());
    let mut router = CompletionRouter::new();
    // A job submitted from an originating context (mirror identifier 70).
    s.accept_job(7, Some(70), Priority::NonCritical(3), vec![]);
    // Its inputs resolve this tick.
    let polls = vec![(7u64, JobInputReady::Ready)];
    s.check_job_inputs(&polls, &mut router);
    s.cancel_stalled_jobs(&mut router);
    let batch = s.select_jobs();
    assert_eq!(batch, vec![7]);
    // It executes successfully and the outcome is reported.
    s.apply_run_results(&vec![(7, true)], &mut router);
    s.increment_frames_stalled();
    // Exactly one completion is observed in the execution context, then
    // exactly one at the origin, both carrying success.
    let worker_deliveries = router.sync_completed_jobs();
    assert_eq!(worker_deliveries.len(), 1);
    assert_eq!(worker_deliveries[0].target, 7);
    assert_eq!(worker_deliveries[0].event.0, Ok(()));
    let origin_deliveries = router.sync_completed_jobs_main_world();
    assert_eq!(origin_deliveries.len(), 1);
    assert_eq!(origin_deliveries[0].target, 70);
    assert_eq!(origin_deliveries[0].event.0, Ok(()));
    // No bookkeeping survives the tick.
    assert!(s.jobs.is_empty());
    assert!(router.sync_completed_jobs().is_empty());
    assert!(router.sync_completed_jobs_main_world().is_empty());
}

#[test]
fn router_preserves_order_and_drops_nothing() {
    let mut s = Scheduler::new(JobExecutionSettings::default());
    let mut router = CompletionRouter::new();
    for i in 1..=5u64 {
        s.accept_job(i, Some(100 + i), Priority::NonCritical(i as u32), vec![]);
    }
    let polls: Vec<(u64, JobInputReady)> =
        (1..=5u64).map(|i| (i, JobInputReady::Ready)).collect();
    s.check_job_inputs(&polls, &mut router);
    s.cancel_stalled_jobs(&mut router);
    let batch = s.select_jobs();
    assert_eq!(batch, vec![5, 4, 3, 2, 1]);
    let results: Vec<(u64, bool)> = batch.iter().map(|&id| (id, id % 2 == 1)).collect();
    s.apply_run_results(&results, &mut router);
    // Delivery order in both contexts follows reporting order; every
    // outcome is delivered exactly once.
    let worker_deliveries = router.sync_completed_jobs();
    let worker_targets: Vec<u64> = worker_deliveries.iter().map(|d| d.target).collect();
    assert_eq!(worker_targets, vec![5, 4, 3, 2, 1]);
    let origin_deliveries = router.sync_completed_jobs_main_world();
    let origin_targets: Vec<u64> = origin_deliveries.iter().map(|d| d.target).collect();
    assert_eq!(origin_targets, vec![105, 104, 103, 102, 101]);
    for d in &worker_deliveries {
        assert_eq!(d.event.0.is_ok(), d.target % 2 == 1);
    }
}

#[test]
fn outcome_without_origin_is_not_delivered_to_origin_context() {
    let mut s = Scheduler::new(JobExecutionSettings::default());
    let mut router = CompletionRouter::new();
    // One job has no mirror identifier in the originating context.
    s.accept_job(1, None, Priority::NonCritical(1), vec![]);
    s.accept_job(2, Some(20), Priority::NonCritical(2), vec![]);
    let polls = vec![(1u64, JobInputReady::Ready), (2u64, JobInputReady::Ready)];
    s.check_job_inputs(&polls, &mut router);
    s.cancel_stalled_jobs(&mut router);
    let batch = s.select_jobs();
    let results: Vec<(u64, bool)> = batch.iter().map(|&id| (id, true)).collect();
    s.apply_run_results(&results, &mut router);
    let worker_deliveries = router.sync_completed_jobs();
    assert_eq!(worker_deliveries.len(), 2);
    let origin_deliveries = router.sync_completed_jobs_main_world();
    assert_eq!(origin_deliveries.len(), 1);
    assert_eq!(origin_deliveries[0].target, 20);
}
