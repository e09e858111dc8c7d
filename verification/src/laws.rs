//! Laws of the tick state machine, proved once and for all: when a stalled
//! job is evicted, when an input failure evicts a job, and that a job that
//! runs successfully yields exactly one completion at its origin with no
//! bookkeeping left behind.

use vstd::prelude::*;

use crate::router::CompletionRouter;
use crate::router::Delivery;
use crate::router::JobResult;
use crate::runner::apply_emits;
use crate::runner::apply_kept;
use crate::runner::bump_stalled;
use crate::runner::check_emits;
use crate::runner::check_kept;
use crate::runner::evict_emits;
use crate::runner::evict_kept;
use crate::runner::failure_of;
use crate::runner::has_id;
use crate::runner::idx_of;
use crate::runner::poll_of;
use crate::runner::remove_id;
use crate::runner::unique_ids;
use crate::runner::JobState;
use crate::select::count_noncrit_ids;
use crate::select::count_ready_noncrit;
use crate::select::min_spec;
use crate::input::JobInputReady;
use crate::JobComplete;
use crate::JobError;

verus! {

/// The job record with its stall counter set to the given count.
pub open spec fn with_stalled(j: JobState, c: u32) -> JobState {
    JobState {
        id: j.id,
        origin: j.origin,
        priority: j.priority,
        computed: j.computed,
        deps: j.deps,
        status: j.status,
        stalled: c,
    }
}

/// One tick over a table in which no job reaches execution: polling, stall
/// eviction, and the stall-counter advance of cleanup, with the failures
/// the tick reports. (Selection only ever executes jobs that are `Ready`,
/// so a table with no ready job runs nothing.)
pub open spec fn tick_unrun(s: Seq<JobState>, polls: Seq<(u64, JobInputReady)>, max_stall: u32) -> (
    Seq<JobState>,
    Seq<JobResult>,
) {
    let kept1 = check_kept(s, polls);
    let kept2 = evict_kept(kept1, max_stall);
    (bump_stalled(kept2), check_emits(s, polls) + evict_emits(kept1, max_stall))
}

/// The table and the accumulated failure reports after `n` such ticks.
pub open spec fn run_ticks(
    s: Seq<JobState>,
    polls: Seq<(u64, JobInputReady)>,
    max_stall: u32,
    n: nat,
) -> (Seq<JobState>, Seq<JobResult>)
    decreases n,
{
    if n == 0 {
        (s, Seq::empty())
    } else {
        let (s1, e1) = tick_unrun(s, polls, max_stall);
        let (s2, e2) = run_ticks(s1, polls, max_stall, (n - 1) as nat);
        (s2, e1 + e2)
    }
}

/// An empty table stays empty and reports nothing, however many ticks run.
proof fn lemma_run_ticks_empty(polls: Seq<(u64, JobInputReady)>, max_stall: u32, n: nat)
    ensures
        run_ticks(Seq::empty(), polls, max_stall, n) == (
            Seq::<JobState>::empty(),
            Seq::<JobResult>::empty(),
        ),
    decreases n,
{
    if n > 0 {
        assert(check_kept(Seq::empty(), polls) == Seq::<JobState>::empty());
        assert(bump_stalled(Seq::<JobState>::empty()) =~= Seq::<JobState>::empty());
        lemma_run_ticks_empty(polls, max_stall, (n - 1) as nat);
        assert(run_ticks(Seq::empty(), polls, max_stall, n).1 =~= Seq::<JobResult>::empty());
    }
}

/// Stall eviction is exact, from any starting count: a lone job whose
/// inputs always report `Wait` survives a tick whenever its counter is at
/// most the limit, coming out with the counter one higher, and is evicted
/// with `Stalled` on the tick after the counter passes the limit — and on
/// no other.
proof fn lemma_stall_run(
    j: JobState,
    polls: Seq<(u64, JobInputReady)>,
    m: u32,
    c: u32,
    n: nat,
)
    requires
        j.status is Waiting,
        poll_of(polls, j.id) is Wait,
        j.stalled == c,
        c <= m + 1,
        m < u32::MAX,
    ensures
        n <= m + 1 - c ==> run_ticks(seq![j], polls, m, n) == (
            seq![with_stalled(j, (c + n) as u32)],
            Seq::<JobResult>::empty(),
        ),
        n > m + 1 - c ==> run_ticks(seq![j], polls, m, n) == (
            Seq::<JobState>::empty(),
            seq![failure_of(with_stalled(j, (m + 1) as u32), JobError::Stalled)],
        ),
    decreases n,
{
    if n == 0 {
        assert(with_stalled(j, c) == j);
        assert(run_ticks(seq![j], polls, m, n) == (seq![j], Seq::<JobResult>::empty()));
    } else {
        let sj = seq![j];
        assert(sj.drop_last() =~= Seq::<JobState>::empty());
        assert(sj.last() == j);
        assert(check_kept(Seq::<JobState>::empty(), polls) == Seq::<JobState>::empty());
        assert(check_emits(Seq::<JobState>::empty(), polls) == Seq::<JobResult>::empty());
        assert(evict_kept(Seq::<JobState>::empty(), m) == Seq::<JobState>::empty());
        assert(evict_emits(Seq::<JobState>::empty(), m) == Seq::<JobResult>::empty());
        assert(check_kept(sj, polls) =~= seq![j]);
        assert(check_emits(sj, polls) =~= Seq::<JobResult>::empty());
        if c <= m {
            assert(evict_kept(seq![j], m) =~= seq![j]);
            assert(evict_emits(seq![j], m) =~= Seq::<JobResult>::empty());
            let jb = with_stalled(j, (c + 1) as u32);
            assert(bump_stalled(seq![j]) =~= seq![jb]);
            assert(tick_unrun(sj, polls, m).0 == seq![jb]);
            assert(tick_unrun(sj, polls, m).1 =~= Seq::<JobResult>::empty());
            lemma_stall_run(jb, polls, m, (c + 1) as u32, (n - 1) as nat);
            if n <= m + 1 - c {
                assert(with_stalled(jb, ((c + 1) + (n - 1)) as u32) == with_stalled(
                    j,
                    (c + n) as u32,
                ));
                assert(run_ticks(sj, polls, m, n).1 =~= Seq::<JobResult>::empty());
            } else {
                assert(with_stalled(jb, (m + 1) as u32) == with_stalled(j, (m + 1) as u32));
                assert(run_ticks(sj, polls, m, n).1 =~= seq![
                    failure_of(with_stalled(j, (m + 1) as u32), JobError::Stalled),
                ]);
            }
        } else {
            assert(c == m + 1);
            assert(j.stalled > m);
            assert(evict_kept(seq![j], m) =~= Seq::<JobState>::empty());
            assert(evict_emits(seq![j], m) =~= seq![failure_of(j, JobError::Stalled)]);
            assert(bump_stalled(Seq::<JobState>::empty()) =~= Seq::<JobState>::empty());
            lemma_run_ticks_empty(polls, m, (n - 1) as nat);
            assert(with_stalled(j, (m + 1) as u32) == j);
            assert(run_ticks(sj, polls, m, n).1 =~= seq![failure_of(j, JobError::Stalled)]);
        }
    }
}

/// A job whose inputs never resolve is evicted with `Stalled` exactly
/// after `max_stall + 1` ticks of remaining `Waiting`: for the first
/// `max_stall + 1` ticks it stays in the table, still waiting, with its
/// counter equal to the number of ticks it has sat through, and no failure
/// is reported; on the next tick it is evicted with exactly one `Stalled`
/// report, and later ticks change nothing further.
pub proof fn lemma_stalled_eviction_exact(
    j: JobState,
    polls: Seq<(u64, JobInputReady)>,
    m: u32,
    n: nat,
)
    requires
        j.status is Waiting,
        poll_of(polls, j.id) is Wait,
        j.stalled == 0,
        m < u32::MAX,
    ensures
        n <= m + 1 ==> run_ticks(seq![j], polls, m, n) == (
            seq![with_stalled(j, n as u32)],
            Seq::<JobResult>::empty(),
        ),
        n > m + 1 ==> run_ticks(seq![j], polls, m, n) == (
            Seq::<JobState>::empty(),
            seq![failure_of(with_stalled(j, (m + 1) as u32), JobError::Stalled)],
        ),
{
    lemma_stall_run(j, polls, m, 0, n);
}

/// An element of a sequence is still an element after a push.
proof fn lemma_result_contains_push(s: Seq<JobResult>, x: JobResult, y: JobResult)
    requires
        s.contains(y),
    ensures
        s.push(x).contains(y),
{
    let w = choose|w: int| 0 <= w < s.len() && s[w] == y;
    assert(s.push(x)[w] == y);
}

/// A job whose inputs report `Fail` is evicted with `InputsFailed` on the
/// very tick the failure is observed: the polling phase removes it from
/// the table — before selection can consider it, whatever the budget —
/// and reports its failure.
pub proof fn lemma_inputs_failed_evicted(s: Seq<JobState>, polls: Seq<(u64, JobInputReady)>, i: int)
    requires
        unique_ids(s),
        0 <= i < s.len(),
        s[i].status is Waiting,
        poll_of(polls, s[i].id) is Fail,
    ensures
        !has_id(check_kept(s, polls), s[i].id),
        check_emits(s, polls).contains(failure_of(s[i], JobError::InputsFailed)),
    decreases s.len(),
{
    let kept = check_kept(s, polls);
    let prev = check_kept(s.drop_last(), polls);
    if i == s.len() - 1 {
        assert(kept == prev);
        assert(!has_id(prev, s[i].id)) by {
            assert(unique_ids(s.drop_last()));
            if has_id(prev, s[i].id) {
                lemma_kept_ids_from(s.drop_last(), polls, s[i].id);
                let w = choose|w: int|
                    0 <= w < s.drop_last().len() && s.drop_last()[w].id == s[i].id;
                assert(s[w].id == s[i].id);
            }
        }
        assert(check_emits(s, polls).last() == failure_of(s[i], JobError::InputsFailed));
        assert(check_emits(s, polls).contains(failure_of(s[i], JobError::InputsFailed)));
    } else {
        assert(s.drop_last()[i] == s[i]);
        assert(unique_ids(s.drop_last()));
        lemma_inputs_failed_evicted(s.drop_last(), polls, i);
        assert(check_emits(s, polls).contains(failure_of(s[i], JobError::InputsFailed))) by {
            let e = failure_of(s[i], JobError::InputsFailed);
            if s.last().status is Waiting && poll_of(polls, s.last().id) is Fail {
                lemma_result_contains_push(
                    check_emits(s.drop_last(), polls),
                    failure_of(s.last(), JobError::InputsFailed),
                    e,
                );
            }
        }
        assert(!has_id(kept, s[i].id)) by {
            if has_id(kept, s[i].id) {
                let w = choose|w: int| 0 <= w < kept.len() && kept[w].id == s[i].id;
                if w < prev.len() {
                    assert(prev[w].id == s[i].id);
                    assert(has_id(prev, s[i].id));
                } else {
                    assert(kept[w].id == s.last().id);
                    assert(s[i].id != s[s.len() - 1].id);
                }
            }
        }
    }
}

/// Every identifier surviving the polling phase was in the table.
proof fn lemma_kept_ids_from(s: Seq<JobState>, polls: Seq<(u64, JobInputReady)>, x: u64)
    requires
        has_id(check_kept(s, polls), x),
    ensures
        has_id(s, x),
    decreases s.len(),
{
    let kept = check_kept(s, polls);
    let prev = check_kept(s.drop_last(), polls);
    let w = choose|w: int| 0 <= w < kept.len() && kept[w].id == x;
    if w < prev.len() {
        assert(prev[w].id == x);
        lemma_kept_ids_from(s.drop_last(), polls, x);
        let v = choose|v: int| 0 <= v < s.drop_last().len() && s.drop_last()[v].id == x;
        assert(s[v].id == x);
    } else {
        assert(kept[w].id == s.last().id);
        assert(s[s.len() - 1].id == x);
    }
}

/// Round trip: a lone accepted job whose inputs resolve this tick, that is
/// selected (any batch meeting the selection contract over this table is
/// exactly that job), executes successfully, and is routed, produces
/// exactly one completion event at its origin carrying success — and no
/// bookkeeping survives the tick in the scheduler's table.
pub proof fn lemma_round_trip(
    j: JobState,
    polls: Seq<(u64, JobInputReady)>,
    m: u32,
    budget: u32,
    batch: Seq<u64>,
    org: u64,
)
    requires
        j.status is Waiting,
        poll_of(polls, j.id) is Ready,
        j.origin == Some(org),
        j.stalled == 0,
        budget >= 1,
        // The batch satisfies the selection contract over the checked table.
        ({
            let t = evict_kept(check_kept(seq![j], polls), m);
            &&& forall|k: int|
                0 <= k < batch.len() ==> has_id(t, #[trigger] batch[k]) && t[idx_of(t, batch[k])].status
                    is Ready
            &&& forall|a: int, b: int| 0 <= a < b < batch.len() ==> batch[a] != batch[b]
            &&& forall|i: int|
                0 <= i < t.len() && (#[trigger] t[i]).status is Ready && t[i].computed is Critical
                    ==> batch.contains(t[i].id)
            &&& count_noncrit_ids(t, batch) == min_spec(budget as int, count_ready_noncrit(t))
        }),
    ensures
        check_emits(seq![j], polls) == Seq::<JobResult>::empty(),
        evict_emits(check_kept(seq![j], polls), m) == Seq::<JobResult>::empty(),
        batch == seq![j.id],
        ({
            let t = evict_kept(check_kept(seq![j], polls), m);
            let emitted = apply_emits(t, seq![(j.id, true)]);
            &&& apply_kept(t, seq![(j.id, true)]) == Seq::<JobState>::empty()
            &&& emitted == seq![JobResult { id: j.id, origin: Some(org), result: Ok::<(), JobError>(()) }]
            &&& CompletionRouter::spec_worker_deliveries(emitted) == seq![
                Delivery { target: j.id, event: JobComplete(Ok(())) },
            ]
            &&& CompletionRouter::spec_origin_deliveries(emitted) == seq![
                Delivery { target: org, event: JobComplete(Ok(())) },
            ]
        }),
{
    let sj = seq![j];
    assert(sj.drop_last() =~= Seq::<JobState>::empty());
    assert(sj.last() == j);
    assert(check_kept(Seq::<JobState>::empty(), polls) == Seq::<JobState>::empty());
    assert(check_emits(Seq::<JobState>::empty(), polls) == Seq::<JobResult>::empty());
    assert(evict_kept(Seq::<JobState>::empty(), m) == Seq::<JobState>::empty());
    assert(evict_emits(Seq::<JobState>::empty(), m) == Seq::<JobResult>::empty());
    let jr = JobState {
        id: j.id,
        origin: j.origin,
        priority: j.priority,
        computed: j.computed,
        deps: j.deps,
        status: crate::runner::JobStatus::Ready,
        stalled: j.stalled,
    };
    assert(check_kept(sj, polls) =~= seq![jr]);
    assert(check_emits(sj, polls) =~= Seq::<JobResult>::empty());
    let t = evict_kept(check_kept(sj, polls), m);
    assert(seq![jr].drop_last() =~= Seq::<JobState>::empty());
    assert(seq![jr].last() == jr);
    assert(t =~= seq![jr]);
    assert(evict_emits(check_kept(sj, polls), m) =~= Seq::<JobResult>::empty());
    // The batch must be exactly this job.
    assert(unique_ids(t));
    assert(batch == seq![j.id]) by {
        assert(forall|k: int| 0 <= k < batch.len() ==> #[trigger] batch[k] == j.id) by {
            assert forall|k: int| 0 <= k < batch.len() implies #[trigger] batch[k] == j.id by {
                assert(has_id(t, batch[k]));
                let w = choose|w: int| 0 <= w < t.len() && t[w].id == batch[k];
                assert(t[0].id == j.id);
            }
        }
        assert(batch.len() <= 1) by {
            if batch.len() >= 2 {
                assert(batch[0] == j.id && batch[1] == j.id);
            }
        }
        if j.computed is Critical {
            assert(t[0].status is Ready && t[0].computed is Critical);
            assert(batch.contains(t[0].id));
            assert(batch.len() >= 1);
        } else {
            assert(count_ready_noncrit(t) == 1) by {
                assert(count_ready_noncrit(Seq::<JobState>::empty()) == 0);
                assert(t.drop_last() =~= Seq::<JobState>::empty());
                assert(count_ready_noncrit(t.drop_last()) == 0);
            }
            assert(count_noncrit_ids(t, batch) == 1);
            assert(batch.len() >= 1) by {
                if batch.len() == 0 {
                    assert(count_noncrit_ids(t, batch) == 0);
                }
            }
        }
        assert(batch =~= seq![j.id]);
    }
    // Reporting the successful run empties the table and emits one success.
    let results = seq![(j.id, true)];
    assert(results.drop_first() =~= Seq::<(u64, bool)>::empty());
    assert(remove_id(t, j.id) =~= Seq::<JobState>::empty()) by {
        assert(remove_id(Seq::<JobState>::empty(), j.id) == Seq::<JobState>::empty());
        assert(t.drop_last() =~= Seq::<JobState>::empty());
        assert(remove_id(t.drop_last(), j.id) == Seq::<JobState>::empty());
        assert(t.last().id == j.id);
    }
    assert(apply_kept(t, results) == Seq::<JobState>::empty()) by {
        assert(apply_kept(remove_id(t, j.id), results.drop_first()) == remove_id(t, j.id));
    }
    let ok_result = JobResult { id: j.id, origin: Some(org), result: Ok::<(), JobError>(()) };
    assert(apply_emits(t, results) =~= seq![ok_result]) by {
        crate::runner::lemma_idx_unique(t, j.id, 0);
        assert(crate::runner::origin_of(t, j.id) == Some(org));
        assert(apply_emits(remove_id(t, j.id), results.drop_first()) =~= Seq::<JobResult>::empty());
    }
    // Routing delivers it exactly once in each context, at the right target.
    let emitted = seq![ok_result];
    assert(CompletionRouter::spec_worker_deliveries(emitted) =~= seq![
        Delivery { target: j.id, event: JobComplete(Ok(())) },
    ]);
    assert(CompletionRouter::spec_origin_deliveries(emitted) =~= seq![
        Delivery { target: org, event: JobComplete(Ok(())) },
    ]) by {
        let f = |r: JobResult| r.origin is Some;
        reveal(Seq::filter);
        assert(emitted.drop_last() =~= Seq::<JobResult>::empty());
        assert(emitted.filter(f) =~= seq![ok_result]);
    }
}

} // verus!
