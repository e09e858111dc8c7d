//! The job lifecycle state machine and the per-tick scheduling algorithm:
//! readiness polling, stall eviction, budgeted priority-ordered selection,
//! and result reporting.
//!
//! Each tick runs these phases in a fixed order over the job table:
//! polling (`check_job_inputs`), stall eviction (`cancel_stalled_jobs`),
//! selection (`select_jobs`), execution (outside this crate) followed by
//! result reporting (`apply_run_results`), and stall-counter advancement
//! (`increment_frames_stalled`).

use vstd::prelude::*;

use crate::input::JobInputReady;
use crate::meta::Priority;
use crate::router::CompletionRouter;
use crate::router::JobResult;
use crate::JobError;
use crate::JobExecutionSettings;

verus! {

/// Where a job stands in its lifecycle while the scheduler tracks it.
/// Terminal outcomes (success or any [`JobError`]) remove the job from the
/// table instead of being recorded here.
#[derive(Copy, Clone, PartialEq, Eq, Structural, Debug)]
pub enum JobStatus {
    /// The job's inputs have not all reported ready yet.
    Waiting,
    /// All inputs reported ready; the job is a candidate for execution.
    Ready,
}

/// The scheduler's bookkeeping for one accepted job.
#[derive(Debug)]
pub struct JobState {
    /// The job's identifier in the execution context.
    pub id: u64,
    /// The job's mirror identifier in the originating context, when that
    /// context tracks one.
    pub origin: Option<u64>,
    /// The priority the job was submitted with.
    pub priority: Priority,
    /// The effective scheduling priority: the job's own priority plus the
    /// priorities propagated from every distinct job that depends on it.
    pub computed: Priority,
    /// The identifiers of the jobs this job depends on, recorded at
    /// acceptance and immutable afterwards. Dependencies only steer
    /// priority propagation; they never block execution.
    pub deps: Vec<u64>,
    /// Where the job stands in its lifecycle.
    pub status: JobStatus,
    /// How many ticks the job has sat in the table without executing.
    pub stalled: u32,
}

impl JobState {
    /// A well-formed job record: both priorities carry positive weights.
    pub open spec fn wf(self) -> bool {
        self.priority.wf() && self.computed.wf()
    }
}

/// No two jobs in the table share an identifier.
pub open spec fn unique_ids(s: Seq<JobState>) -> bool {
    forall|i: int, j: int| 0 <= i < j < s.len() ==> s[i].id != s[j].id
}

/// Every job record in the table is well-formed.
pub open spec fn all_wf(s: Seq<JobState>) -> bool {
    forall|i: int| 0 <= i < s.len() ==> (#[trigger] s[i]).wf()
}

/// Whether the table holds a job with the given identifier.
pub open spec fn has_id(s: Seq<JobState>, id: u64) -> bool {
    exists|i: int| 0 <= i < s.len() && s[i].id == id
}

/// The index of the job with the given identifier (meaningful when the
/// table holds one and identifiers are unique).
pub open spec fn idx_of(s: Seq<JobState>, id: u64) -> int {
    choose|i: int| 0 <= i < s.len() && s[i].id == id
}

/// The mirror identifier of the job with the given identifier, if any.
pub open spec fn origin_of(s: Seq<JobState>, id: u64) -> Option<u64> {
    if has_id(s, id) {
        s[idx_of(s, id)].origin
    } else {
        None
    }
}

/// The effective priority of the job with the given identifier.
pub open spec fn computed_of(s: Seq<JobState>, id: u64) -> Priority {
    s[idx_of(s, id)].computed
}

/// The readiness reported for the given job by a poll snapshot: the first
/// entry for its identifier, or `Wait` when the snapshot carries none.
pub open spec fn poll_of(polls: Seq<(u64, JobInputReady)>, id: u64) -> JobInputReady
    decreases polls.len(),
{
    if polls.len() == 0 {
        JobInputReady::Wait
    } else if polls[0].0 == id {
        polls[0].1
    } else {
        poll_of(polls.drop_first(), id)
    }
}

/// The failure outcome reported for a job evicted with the given error.
pub open spec fn failure_of(j: JobState, e: JobError) -> JobResult {
    JobResult { id: j.id, origin: j.origin, result: Err(e) }
}

/// The table after the polling phase: a waiting job whose inputs report
/// `Ready` is promoted, one whose inputs report `Fail` is removed, and
/// everything else is untouched.
pub open spec fn check_kept(s: Seq<JobState>, polls: Seq<(u64, JobInputReady)>) -> Seq<JobState>
    decreases s.len(),
{
    if s.len() == 0 {
        Seq::empty()
    } else {
        let prev = check_kept(s.drop_last(), polls);
        let j = s.last();
        if j.status is Waiting {
            match poll_of(polls, j.id) {
                JobInputReady::Ready => prev.push(
                    JobState {
                        id: j.id,
                        origin: j.origin,
                        priority: j.priority,
                        computed: j.computed,
                        deps: j.deps,
                        status: JobStatus::Ready,
                        stalled: j.stalled,
                    },
                ),
                JobInputReady::Wait => prev.push(j),
                JobInputReady::Fail => prev,
            }
        } else {
            prev.push(j)
        }
    }
}

/// The failures emitted by the polling phase: one `InputsFailed` outcome,
/// in table order, for each waiting job whose inputs report `Fail`.
pub open spec fn check_emits(s: Seq<JobState>, polls: Seq<(u64, JobInputReady)>) -> Seq<JobResult>
    decreases s.len(),
{
    if s.len() == 0 {
        Seq::empty()
    } else {
        let prev = check_emits(s.drop_last(), polls);
        let j = s.last();
        if j.status is Waiting && poll_of(polls, j.id) is Fail {
            prev.push(failure_of(j, JobError::InputsFailed))
        } else {
            prev
        }
    }
}

/// The polling phase preserves unique identifiers and well-formedness, and
/// every kept job's identifier was already in the table.
pub proof fn lemma_check_kept_invariants(s: Seq<JobState>, polls: Seq<(u64, JobInputReady)>)
    requires
        unique_ids(s),
        all_wf(s),
    ensures
        unique_ids(check_kept(s, polls)),
        all_wf(check_kept(s, polls)),
        forall|k: int|
            0 <= k < check_kept(s, polls).len() ==> has_id(s, #[trigger] check_kept(s, polls)[k].id),
    decreases s.len(),
{
    if s.len() > 0 {
        let prev = check_kept(s.drop_last(), polls);
        lemma_check_kept_invariants(s.drop_last(), polls);
        assert forall|k: int| 0 <= k < prev.len() implies has_id(s, prev[k].id) by {
            let i = choose|i: int| 0 <= i < s.drop_last().len() && s.drop_last()[i].id == prev[k].id;
            assert(s[i].id == prev[k].id);
        }
        assert forall|k: int| 0 <= k < prev.len() implies prev[k].id != s.last().id by {
            let i = choose|i: int| 0 <= i < s.drop_last().len() && s.drop_last()[i].id == prev[k].id;
            assert(s[i].id == prev[k].id);
            assert(s[i].id != s[s.len() - 1].id);
        }
    }
}

/// The scheduler: the owned bookkeeping for every accepted job, plus the
/// per-tick execution settings.
pub struct Scheduler {
    /// The job table. The scheduler exclusively owns this bookkeeping once
    /// a job has been accepted.
    pub jobs: Vec<JobState>,
    /// The per-tick budget and stall limit.
    pub settings: JobExecutionSettings,
}

impl Scheduler {
    /// A well-formed scheduler: identifiers are unique and every record is
    /// well-formed.
    pub open spec fn wf(self) -> bool {
        unique_ids(self.jobs@) && all_wf(self.jobs@)
    }

    /// Creates a scheduler with an empty job table.
    pub fn new(settings: JobExecutionSettings) -> (s: Self)
        ensures
            s.wf(),
            s.jobs@ == Seq::<JobState>::empty(),
            s.settings == settings,
    {
        Scheduler { jobs: Vec::new(), settings }
    }

    /// The polling phase of a tick: every waiting job's poll result is
    /// looked up in the snapshot. `Ready` promotes the job, `Fail` evicts
    /// it with `InputsFailed` reported through the router on this same
    /// tick, and `Wait` leaves it untouched. Jobs already `Ready` are not
    /// polled again.
    pub fn check_job_inputs(
        &mut self,
        polls: &Vec<(u64, JobInputReady)>,
        router: &mut CompletionRouter,
    )
        requires
            old(self).wf(),
        ensures
            final(self).wf(),
            final(self).settings == old(self).settings,
            final(self).jobs@ == check_kept(old(self).jobs@, polls@),
            final(router).worker_queue() == old(router).worker_queue() + check_emits(
                old(self).jobs@,
                polls@,
            ),
            final(router).bridge_queue() == old(router).bridge_queue(),
    {
        let ghost s0 = self.jobs@;
        let ghost w0 = router.worker_queue();
        let ghost p: int = 0;
        let mut i: usize = 0;
        while i < self.jobs.len()
            invariant
                0 <= p <= s0.len(),
                self.settings == old(self).settings,
                self.jobs@ == check_kept(s0.take(p), polls@) + s0.skip(p),
                i == check_kept(s0.take(p), polls@).len(),
                router.worker_queue() == w0 + check_emits(s0.take(p), polls@),
                router.bridge_queue() == old(router).bridge_queue(),
                self.jobs@.len() - i == s0.len() - p,
            decreases self.jobs@.len() - i,
        {
            proof {
                assert(s0.take(p + 1).drop_last() =~= s0.take(p));
                assert(s0.take(p + 1).last() == s0[p]);
                assert(self.jobs@[i as int] == s0.skip(p)[0]);
                assert(s0.skip(p)[0] == s0[p]);
            }
            let waiting = matches!(self.jobs[i].status, JobStatus::Waiting);
            if waiting {
                let poll = lookup_poll(polls, self.jobs[i].id);
                match poll {
                    JobInputReady::Ready => {
                        let mut j = self.jobs.remove(i);
                        j.status = JobStatus::Ready;
                        self.jobs.insert(i, j);
                        proof {
                            assert(self.jobs@ =~= check_kept(s0.take(p + 1), polls@) + s0.skip(
                                p + 1,
                            ));
                        }
                        i = i + 1;
                    },
                    JobInputReady::Wait => {
                        proof {
                            assert(self.jobs@ =~= check_kept(s0.take(p + 1), polls@) + s0.skip(
                                p + 1,
                            ));
                        }
                        i = i + 1;
                    },
                    JobInputReady::Fail => {
                        let j = self.jobs.remove(i);
                        let r = JobResult { id: j.id, origin: j.origin, result: Err(JobError::InputsFailed) };
                        router.report(r);
                        proof {
                            assert(self.jobs@ =~= check_kept(s0.take(p + 1), polls@) + s0.skip(
                                p + 1,
                            ));
                            assert(router.worker_queue() =~= w0 + check_emits(
                                s0.take(p + 1),
                                polls@,
                            ));
                        }
                    },
                }
            } else {
                proof {
                    assert(self.jobs@ =~= check_kept(s0.take(p + 1), polls@) + s0.skip(p + 1));
                }
                i = i + 1;
            }
            proof {
                p = p + 1;
            }
        }
        proof {
            assert(s0.take(p) =~= s0);
            assert(self.jobs@ =~= check_kept(s0, polls@));
            assert(router.worker_queue() =~= w0 + check_emits(s0, polls@));
            lemma_check_kept_invariants(s0, polls@);
        }
    }

    /// The stall-eviction phase of a tick: every job whose stall counter
    /// exceeds the configured limit is evicted with `Stalled` reported
    /// through the router, regardless of its status or priority.
    pub fn cancel_stalled_jobs(&mut self, router: &mut CompletionRouter)
        requires
            old(self).wf(),
        ensures
            final(self).wf(),
            final(self).settings == old(self).settings,
            final(self).jobs@ == evict_kept(old(self).jobs@, old(self).settings.time_out_frames),
            final(router).worker_queue() == old(router).worker_queue() + evict_emits(
                old(self).jobs@,
                old(self).settings.time_out_frames,
            ),
            final(router).bridge_queue() == old(router).bridge_queue(),
    {
        let ghost s0 = self.jobs@;
        let ghost w0 = router.worker_queue();
        let max_stall = self.settings.time_out_frames;
        let ghost p: int = 0;
        let mut i: usize = 0;
        while i < self.jobs.len()
            invariant
                0 <= p <= s0.len(),
                self.settings == old(self).settings,
                max_stall == old(self).settings.time_out_frames,
                self.jobs@ == evict_kept(s0.take(p), max_stall) + s0.skip(p),
                i == evict_kept(s0.take(p), max_stall).len(),
                router.worker_queue() == w0 + evict_emits(s0.take(p), max_stall),
                router.bridge_queue() == old(router).bridge_queue(),
                self.jobs@.len() - i == s0.len() - p,
            decreases self.jobs@.len() - i,
        {
            proof {
                assert(s0.take(p + 1).drop_last() =~= s0.take(p));
                assert(s0.take(p + 1).last() == s0[p]);
                assert(self.jobs@[i as int] == s0.skip(p)[0]);
                assert(s0.skip(p)[0] == s0[p]);
            }
            if self.jobs[i].stalled > max_stall {
                let j = self.jobs.remove(i);
                let r = JobResult { id: j.id, origin: j.origin, result: Err(JobError::Stalled) };
                router.report(r);
                proof {
                    assert(self.jobs@ =~= evict_kept(s0.take(p + 1), max_stall) + s0.skip(p + 1));
                    assert(router.worker_queue() =~= w0 + evict_emits(s0.take(p + 1), max_stall));
                }
            } else {
                proof {
                    assert(self.jobs@ =~= evict_kept(s0.take(p + 1), max_stall) + s0.skip(p + 1));
                }
                i = i + 1;
            }
            proof {
                p = p + 1;
            }
        }
        proof {
            assert(s0.take(p) =~= s0);
            assert(self.jobs@ =~= evict_kept(s0, max_stall));
            assert(router.worker_queue() =~= w0 + evict_emits(s0, max_stall));
            lemma_evict_kept_invariants(s0, max_stall);
        }
    }

    /// The cleanup phase of a tick: every job still tracked has waited one
    /// more tick, so each stall counter advances by one, saturating at the
    /// largest representable count.
    pub fn increment_frames_stalled(&mut self)
        requires
            old(self).wf(),
        ensures
            final(self).wf(),
            final(self).settings == old(self).settings,
            final(self).jobs@ == bump_stalled(old(self).jobs@),
    {
        let ghost s0 = self.jobs@;
        let mut i: usize = 0;
        while i < self.jobs.len()
            invariant
                0 <= i <= s0.len(),
                self.settings == old(self).settings,
                self.jobs@.len() == s0.len(),
                self.jobs@ == bump_stalled(s0).take(i as int) + s0.skip(i as int),
            decreases s0.len() - i,
        {
            proof {
                assert(self.jobs@[i as int] == s0.skip(i as int)[0]);
                assert(s0.skip(i as int)[0] == s0[i as int]);
            }
            let mut j = self.jobs.remove(i);
            j.stalled = j.stalled.saturating_add(1);
            self.jobs.insert(i, j);
            proof {
                assert(self.jobs@[i as int] == bump_stalled(s0)[i as int]);
                assert(self.jobs@ =~= bump_stalled(s0).take(i + 1) + s0.skip(i + 1));
            }
            i = i + 1;
        }
        proof {
            assert(self.jobs@ =~= bump_stalled(s0));
            assert forall|k: int| 0 <= k < bump_stalled(s0).len() implies (#[trigger] bump_stalled(
                s0,
            )[k]).wf() by {
                assert(s0[k].wf());
            }
        }
    }

    /// The reporting phase of a tick: each executed job's result arrives in
    /// batch order; the job's outcome (success, or `ExecutionFailed`) is
    /// reported through the router and its bookkeeping is removed from the
    /// table.
    pub fn apply_run_results(&mut self, results: &Vec<(u64, bool)>, router: &mut CompletionRouter)
        requires
            old(self).wf(),
            forall|a: int, b: int|
                0 <= a < b < results@.len() ==> results@[a].0 != results@[b].0,
            forall|k: int| 0 <= k < results@.len() ==> has_id(old(self).jobs@, results@[k].0),
        ensures
            final(self).wf(),
            final(self).settings == old(self).settings,
            final(self).jobs@ == apply_kept(old(self).jobs@, results@),
            final(router).worker_queue() == old(router).worker_queue() + apply_emits(
                old(self).jobs@,
                results@,
            ),
            final(router).bridge_queue() == old(router).bridge_queue(),
    {
        let ghost s0 = self.jobs@;
        let ghost w0 = router.worker_queue();
        let mut k: usize = 0;
        proof {
            assert(results@.take(0) =~= Seq::<(u64, bool)>::empty());
        }
        while k < results.len()
            invariant
                k <= results@.len(),
                self.settings == old(self).settings,
                self.wf(),
                forall|a: int, b: int|
                    0 <= a < b < results@.len() ==> results@[a].0 != results@[b].0,
                self.jobs@ == apply_kept(s0, results@.take(k as int)),
                forall|m: int|
                    k <= m < results@.len() ==> has_id(self.jobs@, results@[m].0),
                router.worker_queue() == w0 + apply_emits(s0, results@.take(k as int)),
                router.bridge_queue() == old(router).bridge_queue(),
            decreases results@.len() - k,
        {
            let id = results[k].0;
            let ok = results[k].1;
            let found = find_job(&self.jobs, id);
            let i = match found {
                Some(i) => i,
                None => unreached(),
            };
            let ghost t = self.jobs@;
            proof {
                lemma_idx_unique(t, id, i as int);
            }
            let j = self.jobs.remove(i);
            let outcome = if ok {
                Ok(())
            } else {
                Err(JobError::ExecutionFailed)
            };
            router.report(JobResult { id, origin: j.origin, result: outcome });
            proof {
                lemma_remove_id_at(t, id, i as int);
                lemma_remove_id_invariants(t, id);
                assert(results@.take(k + 1) =~= results@.take(k as int).push(
                    results@[k as int],
                ));
                lemma_apply_snoc(s0, results@.take(k as int), results@[k as int]);
                assert(self.jobs@ == apply_kept(s0, results@.take(k + 1)));
                assert(run_outcome(t, id, ok) == JobResult { id, origin: j.origin, result: outcome });
                assert(router.worker_queue() =~= w0 + apply_emits(s0, results@.take(k + 1)));
                assert forall|m: int| k + 1 <= m < results@.len() implies has_id(
                    self.jobs@,
                    results@[m].0,
                ) by {
                    assert(results@[k as int].0 != results@[m].0);
                }
            }
            k = k + 1;
        }
        proof {
            assert(results@.take(results@.len() as int) =~= results@);
        }
    }
}

/// Finds the index of the job with the given identifier, if the table
/// holds one.
pub fn find_job(jobs: &Vec<JobState>, id: u64) -> (r: Option<usize>)
    ensures
        match r {
            Some(i) => i < jobs@.len() && jobs@[i as int].id == id,
            None => !has_id(jobs@, id),
        },
{
    let mut i: usize = 0;
    while i < jobs.len()
        invariant
            i <= jobs@.len(),
            forall|m: int| 0 <= m < i ==> jobs@[m].id != id,
        decreases jobs@.len() - i,
    {
        if jobs[i].id == id {
            return Some(i);
        }
        i = i + 1;
    }
    None
}


/// The table after the stall-eviction phase: every job whose stall
/// counter exceeds the limit is removed, whatever its status or priority.
pub open spec fn evict_kept(s: Seq<JobState>, max_stall: u32) -> Seq<JobState>
    decreases s.len(),
{
    if s.len() == 0 {
        Seq::empty()
    } else {
        let prev = evict_kept(s.drop_last(), max_stall);
        if s.last().stalled > max_stall {
            prev
        } else {
            prev.push(s.last())
        }
    }
}

/// The failures emitted by the stall-eviction phase: one `Stalled` outcome,
/// in table order, for each job whose stall counter exceeds the limit.
pub open spec fn evict_emits(s: Seq<JobState>, max_stall: u32) -> Seq<JobResult>
    decreases s.len(),
{
    if s.len() == 0 {
        Seq::empty()
    } else {
        let prev = evict_emits(s.drop_last(), max_stall);
        if s.last().stalled > max_stall {
            prev.push(failure_of(s.last(), JobError::Stalled))
        } else {
            prev
        }
    }
}

/// The stall-eviction phase keeps a subsequence of the table unchanged, so
/// unique identifiers and well-formedness carry over.
pub proof fn lemma_evict_kept_invariants(s: Seq<JobState>, max_stall: u32)
    requires
        unique_ids(s),
        all_wf(s),
    ensures
        unique_ids(evict_kept(s, max_stall)),
        all_wf(evict_kept(s, max_stall)),
        forall|k: int|
            0 <= k < evict_kept(s, max_stall).len() ==> has_id(
                s,
                #[trigger] evict_kept(s, max_stall)[k].id,
            ),
    decreases s.len(),
{
    if s.len() > 0 {
        let prev = evict_kept(s.drop_last(), max_stall);
        lemma_evict_kept_invariants(s.drop_last(), max_stall);
        assert forall|k: int| 0 <= k < prev.len() implies has_id(s, prev[k].id) && prev[k].id
            != s.last().id by {
            let i = choose|i: int| 0 <= i < s.drop_last().len() && s.drop_last()[i].id == prev[k].id;
            assert(s[i].id == prev[k].id);
            assert(s[i].id != s[s.len() - 1].id);
        }
    }
}

/// The table after the cleanup phase: every job still tracked has sat one
/// more tick without executing, saturating at the largest counter value.
pub open spec fn bump_stalled(s: Seq<JobState>) -> Seq<JobState> {
    Seq::new(
        s.len(),
        |i: int|
            JobState {
                id: s[i].id,
                origin: s[i].origin,
                priority: s[i].priority,
                computed: s[i].computed,
                deps: s[i].deps,
                status: s[i].status,
                stalled: if s[i].stalled + 1 > u32::MAX {
                    u32::MAX
                } else {
                    (s[i].stalled + 1) as u32
                },
            },
    )
}

/// The table with the first job carrying the given identifier removed;
/// with unique identifiers this removes exactly that job.
pub open spec fn remove_id(s: Seq<JobState>, id: u64) -> Seq<JobState>
    decreases s.len(),
{
    if s.len() == 0 {
        Seq::empty()
    } else {
        let prev = remove_id(s.drop_last(), id);
        if s.last().id == id {
            prev
        } else {
            prev.push(s.last())
        }
    }
}

/// Removing one identifier keeps every other job untouched, so unique
/// identifiers and well-formedness carry over, membership of other
/// identifiers is unchanged, and the removed identifier is gone.
pub proof fn lemma_remove_id_invariants(s: Seq<JobState>, id: u64)
    requires
        unique_ids(s),
        all_wf(s),
    ensures
        unique_ids(remove_id(s, id)),
        all_wf(remove_id(s, id)),
        forall|x: u64| x != id ==> has_id(remove_id(s, id), x) == has_id(s, x),
        !has_id(remove_id(s, id), id),
        forall|x: u64|
            x != id && has_id(s, x) ==> origin_of(remove_id(s, id), x) == origin_of(s, x)
                && computed_of(remove_id(s, id), x) == computed_of(s, x),
    decreases s.len(),
{
    let r = remove_id(s, id);
    if s.len() > 0 {
        lemma_remove_id_invariants(s.drop_last(), id);
        let prev = remove_id(s.drop_last(), id);
        assert forall|k: int| 0 <= k < prev.len() implies has_id(s.drop_last(), prev[k].id) by {
            assert(has_id(prev, prev[k].id));
        }
        assert forall|k: int| 0 <= k < prev.len() implies prev[k].id != s.last().id by {
            let i = choose|i: int|
                0 <= i < s.drop_last().len() && s.drop_last()[i].id == prev[k].id;
            assert(s[i].id == prev[k].id);
            assert(s[i].id != s[s.len() - 1].id);
        }
        assert forall|x: u64| x != id && has_id(s, x) implies has_id(r, x) by {
            lemma_lookup_in_removed(s, id, x);
        }
        assert forall|x: u64| x != id && has_id(r, x) implies has_id(s, x) by {
            let k = choose|k: int| 0 <= k < r.len() && r[k].id == x;
            if k < prev.len() {
                assert(has_id(prev, x));
                let i = choose|i: int|
                    0 <= i < s.drop_last().len() && s.drop_last()[i].id == x;
                assert(s[i].id == x);
            } else {
                assert(r[k] == s.last());
                assert(s[s.len() - 1].id == x);
            }
        }
    }
    assert forall|x: u64| x != id && has_id(s, x) implies origin_of(r, x) == origin_of(s, x)
        && computed_of(r, x) == computed_of(s, x) by {
        lemma_lookup_in_removed(s, id, x);
    }
}

/// Looking a surviving job up after a removal finds the same record.
proof fn lemma_lookup_in_removed(s: Seq<JobState>, id: u64, x: u64)
    requires
        unique_ids(s),
        x != id,
        has_id(s, x),
    ensures
        has_id(remove_id(s, id), x),
        remove_id(s, id)[idx_of(remove_id(s, id), x)] == s[idx_of(s, x)],
    decreases s.len(),
{
    let r = remove_id(s, id);
    let prev = remove_id(s.drop_last(), id);
    lemma_remove_unique(s, id);
    if s.last().id == x {
        assert(r == prev.push(s.last()));
        lemma_idx_unique(s, x, s.len() - 1);
        lemma_idx_unique(r, x, r.len() - 1);
    } else {
        let i0 = choose|i: int| 0 <= i < s.len() && s[i].id == x;
        assert(i0 < s.len() - 1);
        assert(s.drop_last()[i0].id == x);
        lemma_lookup_in_removed(s.drop_last(), id, x);
        let di = idx_of(s.drop_last(), x);
        assert(0 <= di < s.drop_last().len() && s.drop_last()[di].id == x);
        lemma_idx_unique(s, x, di);
        assert(s[idx_of(s, x)] == s.drop_last()[di]);
        let k = idx_of(prev, x);
        assert(0 <= k < prev.len() && prev[k].id == x);
        if s.last().id == id {
            assert(r == prev);
        } else {
            assert(r == prev.push(s.last()));
            assert(r[k] == prev[k]);
            lemma_idx_unique(r, x, k);
        }
    }
}

/// With unique identifiers, any index holding the identifier is the index
/// the lookup returns.
pub proof fn lemma_idx_unique(s: Seq<JobState>, id: u64, i: int)
    requires
        unique_ids(s),
        0 <= i < s.len(),
        s[i].id == id,
    ensures
        has_id(s, id),
        idx_of(s, id) == i,
{
    assert(0 <= i < s.len() && s[i].id == id);
    let j = idx_of(s, id);
    if j != i {
        assert(s[i].id != s[j].id);
    }
}

/// Removal preserves unique identifiers, and every survivor's identifier
/// was already in the table.
proof fn lemma_remove_unique(s: Seq<JobState>, id: u64)
    requires
        unique_ids(s),
    ensures
        unique_ids(remove_id(s, id)),
        forall|k: int|
            0 <= k < remove_id(s, id).len() ==> has_id(s, #[trigger] remove_id(s, id)[k].id),
    decreases s.len(),
{
    if s.len() > 0 {
        lemma_remove_unique(s.drop_last(), id);
        let prev = remove_id(s.drop_last(), id);
        assert forall|k: int| 0 <= k < prev.len() implies has_id(s, prev[k].id) && prev[k].id
            != s.last().id by {
            let i = choose|i: int|
                0 <= i < s.drop_last().len() && s.drop_last()[i].id == prev[k].id;
            assert(s[i].id == prev[k].id);
            assert(s[i].id != s[s.len() - 1].id);
        }
    }
}

/// Removing an absent identifier changes nothing.
pub proof fn lemma_remove_id_absent(s: Seq<JobState>, id: u64)
    requires
        !has_id(s, id),
    ensures
        remove_id(s, id) == s,
    decreases s.len(),
{
    if s.len() > 0 {
        assert(!has_id(s.drop_last(), id)) by {
            if has_id(s.drop_last(), id) {
                let i = choose|i: int|
                    0 <= i < s.drop_last().len() && s.drop_last()[i].id == id;
                assert(s[i].id == id);
            }
        }
        lemma_remove_id_absent(s.drop_last(), id);
        assert(remove_id(s, id) =~= s);
    }
}

/// With unique identifiers, removing an identifier is removing the one
/// index that holds it.
pub proof fn lemma_remove_id_at(s: Seq<JobState>, id: u64, i: int)
    requires
        unique_ids(s),
        0 <= i < s.len(),
        s[i].id == id,
    ensures
        remove_id(s, id) == s.remove(i),
    decreases s.len(),
{
    if i == s.len() - 1 {
        assert(!has_id(s.drop_last(), id)) by {
            if has_id(s.drop_last(), id) {
                let k = choose|k: int|
                    0 <= k < s.drop_last().len() && s.drop_last()[k].id == id;
                assert(s[k].id == s[i].id);
            }
        }
        lemma_remove_id_absent(s.drop_last(), id);
        assert(remove_id(s, id) =~= s.remove(i));
    } else {
        assert(s.drop_last()[i].id == id);
        assert(s.last().id != id) by {
            assert(s[i].id != s[s.len() - 1].id);
        }
        lemma_remove_id_at(s.drop_last(), id, i);
        assert(remove_id(s, id) =~= s.remove(i));
    }
}

/// The outcome reported for one executed job: success, or an
/// `ExecutionFailed` failure, addressed with the origin recorded in the
/// table at reporting time.
pub open spec fn run_outcome(s: Seq<JobState>, id: u64, ok: bool) -> JobResult {
    JobResult {
        id,
        origin: origin_of(s, id),
        result: if ok {
            Ok(())
        } else {
            Err(JobError::ExecutionFailed)
        },
    }
}

/// The table after the reporting phase: every executed job is removed, in
/// the order the results arrive.
pub open spec fn apply_kept(s: Seq<JobState>, results: Seq<(u64, bool)>) -> Seq<JobState>
    decreases results.len(),
{
    if results.len() == 0 {
        s
    } else {
        apply_kept(remove_id(s, results[0].0), results.drop_first())
    }
}

/// The outcomes emitted by the reporting phase, in result order.
pub open spec fn apply_emits(s: Seq<JobState>, results: Seq<(u64, bool)>) -> Seq<JobResult>
    decreases results.len(),
{
    if results.len() == 0 {
        Seq::empty()
    } else {
        seq![run_outcome(s, results[0].0, results[0].1)] + apply_emits(
            remove_id(s, results[0].0),
            results.drop_first(),
        )
    }
}

/// Unrolls the reporting phase from the back: handling one more result
/// removes that job from the table left by the earlier results and appends
/// its outcome.
pub proof fn lemma_apply_snoc(s: Seq<JobState>, results: Seq<(u64, bool)>, x: (u64, bool))
    ensures
        apply_kept(s, results.push(x)) == remove_id(apply_kept(s, results), x.0),
        apply_emits(s, results.push(x)) == apply_emits(s, results).push(
            run_outcome(apply_kept(s, results), x.0, x.1),
        ),
    decreases results.len(),
{
    let rp = results.push(x);
    if results.len() == 0 {
        assert(rp.drop_first() =~= Seq::<(u64, bool)>::empty());
        assert(rp[0] == x);
        let o = run_outcome(s, x.0, x.1);
        assert(apply_kept(s, results) == s);
        assert(apply_kept(remove_id(s, x.0), rp.drop_first()) == remove_id(s, x.0));
        assert(apply_kept(s, rp) == remove_id(s, x.0));
        assert(apply_emits(s, results) == Seq::<JobResult>::empty());
        assert(apply_emits(remove_id(s, x.0), rp.drop_first()) == Seq::<JobResult>::empty());
        assert(apply_emits(s, rp) == seq![o] + apply_emits(remove_id(s, rp[0].0), rp.drop_first()));
        assert(seq![o] + Seq::<JobResult>::empty() =~= Seq::<JobResult>::empty().push(o));
        assert(apply_emits(s, rp) =~= apply_emits(s, results).push(
            run_outcome(apply_kept(s, results), x.0, x.1),
        ));
    } else {
        assert(rp[0] == results[0]);
        assert(rp.drop_first() =~= results.drop_first().push(x));
        let s1 = remove_id(s, results[0].0);
        let rd = results.drop_first();
        lemma_apply_snoc(s1, rd, x);
        assert(apply_kept(s, results) == apply_kept(s1, rd));
        assert(apply_kept(s, rp) == apply_kept(s1, rd.push(x)));
        assert(apply_emits(s, rp) == seq![run_outcome(s, rp[0].0, rp[0].1)] + apply_emits(
            s1,
            rd.push(x),
        ));
        assert(apply_emits(s, rp) =~= apply_emits(s, results).push(
            run_outcome(apply_kept(s, results), x.0, x.1),
        ));
    }
}


/// Looks up the poll result recorded for the given job in a poll snapshot;
/// a job the snapshot does not mention is still waiting.
pub fn lookup_poll(polls: &Vec<(u64, JobInputReady)>, id: u64) -> (r: JobInputReady)
    ensures
        r == poll_of(polls@, id),
{
    let mut k: usize = 0;
    proof {
        assert(polls@.skip(0) =~= polls@);
    }
    while k < polls.len()
        invariant
            k <= polls@.len(),
            poll_of(polls@, id) == poll_of(polls@.skip(k as int), id),
        decreases polls@.len() - k,
    {
        proof {
            assert(polls@.skip(k as int)[0] == polls@[k as int]);
        }
        if polls[k].0 == id {
            return polls[k].1;
        }
        proof {
            assert(polls@.skip(k as int).drop_first() =~= polls@.skip(k + 1));
        }
        k = k + 1;
    }
    JobInputReady::Wait
}

} // verus!
