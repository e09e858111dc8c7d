//! The execution-batch selection: among the jobs that are ready, all
//! critical jobs run this tick unconditionally, and non-critical jobs are
//! taken in descending order of effective priority until the per-tick
//! budget is reached.

use vstd::prelude::*;

use crate::meta::lemma_le_total;
use crate::meta::lemma_le_trans;
use crate::meta::Priority;
use crate::runner::computed_of;
use crate::runner::has_id;
use crate::runner::idx_of;
use crate::runner::lemma_idx_unique;
use crate::runner::unique_ids;
use crate::runner::JobState;
use crate::runner::JobStatus;
use crate::runner::Scheduler;

verus! {

/// A sequence of candidates ordered by descending effective priority.
pub open spec fn sorted_desc(c: Seq<(u64, Priority)>) -> bool {
    forall|a: int, b: int| 0 <= a < b < c.len() ==> c[b].1.spec_le(c[a].1)
}

/// No two candidates name the same job.
pub open spec fn distinct_cand_ids(c: Seq<(u64, Priority)>) -> bool {
    forall|a: int, b: int| 0 <= a < b < c.len() ==> c[a].0 != c[b].0
}

/// How many candidates carry a non-critical priority.
pub open spec fn count_noncrit(c: Seq<(u64, Priority)>) -> int
    decreases c.len(),
{
    if c.len() == 0 {
        0int
    } else {
        count_noncrit(c.drop_last()) + if c.last().1 is Critical {
            0int
        } else {
            1int
        }
    }
}

/// How many jobs in the table are ready with a non-critical effective
/// priority.
pub open spec fn count_ready_noncrit(s: Seq<JobState>) -> int
    decreases s.len(),
{
    if s.len() == 0 {
        0int
    } else {
        count_ready_noncrit(s.drop_last()) + if s.last().status is Ready && !(s.last().computed
            is Critical) {
            1int
        } else {
            0int
        }
    }
}

/// How many of the listed jobs carry a non-critical effective priority in
/// the table.
pub open spec fn count_noncrit_ids(s: Seq<JobState>, ids: Seq<u64>) -> int
    decreases ids.len(),
{
    if ids.len() == 0 {
        0int
    } else {
        count_noncrit_ids(s, ids.drop_last()) + if computed_of(s, ids.last()) is Critical {
            0int
        } else {
            1int
        }
    }
}

/// The smaller of two quantities.
pub open spec fn min_spec(a: int, b: int) -> int {
    if a <= b {
        a
    } else {
        b
    }
}

/// A candidate that faithfully describes a ready job in the table.
pub open spec fn cand_ok(s: Seq<JobState>, c: (u64, Priority)) -> bool {
    &&& has_id(s, c.0)
    &&& s[idx_of(s, c.0)].status is Ready
    &&& c.1 == s[idx_of(s, c.0)].computed
}

/// An element of a sequence is still an element after a push.
proof fn lemma_contains_push<T>(s: Seq<T>, x: T, y: T)
    requires
        s.contains(y),
    ensures
        s.push(x).contains(y),
{
    let w = choose|w: int| 0 <= w < s.len() && s[w] == y;
    assert(s.push(x)[w] == y);
}

/// Inserting a candidate adds its contribution to the non-critical count.
proof fn lemma_count_noncrit_insert(c: Seq<(u64, Priority)>, q: int, x: (u64, Priority))
    requires
        0 <= q <= c.len(),
    ensures
        count_noncrit(c.insert(q, x)) == count_noncrit(c) + if x.1 is Critical {
            0int
        } else {
            1int
        },
    decreases c.len(),
{
    let ci = c.insert(q, x);
    if q == c.len() {
        assert(ci.drop_last() =~= c);
        assert(ci.last() == x);
    } else {
        assert(ci.drop_last() =~= c.drop_last().insert(q, x));
        assert(ci.last() == c.last());
        lemma_count_noncrit_insert(c.drop_last(), q, x);
    }
}

/// Collects, in table order, one candidate per ready job.
fn collect_candidates(jobs: &Vec<JobState>) -> (c: Vec<(u64, Priority)>)
    requires
        unique_ids(jobs@),
    ensures
        forall|k: int| 0 <= k < c@.len() ==> cand_ok(jobs@, #[trigger] c@[k]),
        distinct_cand_ids(c@),
        forall|i: int|
            0 <= i < jobs@.len() && (#[trigger] jobs@[i]).status is Ready ==> c@.contains(
                (jobs@[i].id, jobs@[i].computed),
            ),
        count_noncrit(c@) == count_ready_noncrit(jobs@),
{
    let mut c: Vec<(u64, Priority)> = Vec::new();
    let ghost mut idxs: Seq<int> = Seq::empty();
    let mut p: usize = 0;
    while p < jobs.len()
        invariant
            p <= jobs@.len(),
            unique_ids(jobs@),
            idxs.len() == c@.len(),
            forall|k: int| 0 <= k < idxs.len() ==> 0 <= #[trigger] idxs[k] < p,
            forall|a: int, b: int| 0 <= a < b < idxs.len() ==> idxs[a] < idxs[b],
            forall|k: int|
                0 <= k < c@.len() ==> c@[k] == (
                    jobs@[#[trigger] idxs[k]].id,
                    jobs@[idxs[k]].computed,
                ) && jobs@[idxs[k]].status is Ready,
            forall|i: int|
                0 <= i < p && (#[trigger] jobs@[i]).status is Ready ==> c@.contains(
                    (jobs@[i].id, jobs@[i].computed),
                ),
            count_noncrit(c@) == count_ready_noncrit(jobs@.take(p as int)),
        decreases jobs@.len() - p,
    {
        proof {
            assert(jobs@.take(p + 1).drop_last() =~= jobs@.take(p as int));
            assert(jobs@.take(p + 1).last() == jobs@[p as int]);
        }
        let ready = matches!(jobs[p].status, JobStatus::Ready);
        let ghost c_old = c@;
        if ready {
            let pair = (jobs[p].id, jobs[p].computed);
            c.push(pair);
            proof {
                let idxs_old = idxs;
                idxs = idxs.push(p as int);
                assert(c@ == c_old.push(pair));
                assert(c@.drop_last() =~= c_old);
                assert(jobs@[p as int].status is Ready);
                assert forall|kk: int|
                    0 <= kk < c@.len() implies c@[kk] == (
                    jobs@[#[trigger] idxs[kk]].id,
                    jobs@[idxs[kk]].computed,
                ) && jobs@[idxs[kk]].status is Ready by {
                    if kk < c@.len() - 1 {
                        assert(c@[kk] == c_old[kk]);
                        assert(idxs[kk] == idxs_old[kk]);
                    } else {
                        assert(c@[kk] == pair);
                        assert(idxs[kk] == p as int);
                    }
                }
                assert(count_noncrit(c@) == count_noncrit(c_old) + if pair.1 is Critical {
                    0int
                } else {
                    1int
                });
                assert(c@.contains((jobs@[p as int].id, jobs@[p as int].computed))) by {
                    assert(c@[c@.len() - 1] == (jobs@[p as int].id, jobs@[p as int].computed));
                }
                assert forall|i: int|
                    0 <= i < p + 1 && (#[trigger] jobs@[i]).status is Ready implies c@.contains(
                    (jobs@[i].id, jobs@[i].computed),
                ) by {
                    if i < p {
                        lemma_contains_push(c_old, pair, (jobs@[i].id, jobs@[i].computed));
                    }
                }
            }
        }
        p = p + 1;
    }
    proof {
        assert(jobs@.take(jobs@.len() as int) =~= jobs@);
        assert forall|k: int| 0 <= k < c@.len() implies cand_ok(jobs@, #[trigger] c@[k]) by {
            lemma_idx_unique(jobs@, jobs@[idxs[k]].id, idxs[k]);
        }
        assert forall|a: int, b: int| 0 <= a < b < c@.len() implies c@[a].0 != c@[b].0 by {
            assert(idxs[a] < idxs[b]);
            assert(jobs@[idxs[a]].id != jobs@[idxs[b]].id);
        }
    }
    c
}

/// Sorts candidates by descending effective priority. The result holds
/// exactly the candidates given, keeps their identifiers distinct, and
/// keeps the non-critical count.
fn sort_candidates(input: Vec<(u64, Priority)>) -> (out: Vec<(u64, Priority)>)
    requires
        distinct_cand_ids(input@),
    ensures
        sorted_desc(out@),
        distinct_cand_ids(out@),
        forall|x: (u64, Priority)| out@.contains(x) == input@.contains(x),
        count_noncrit(out@) == count_noncrit(input@),
        out@.len() == input@.len(),
{
    let mut out: Vec<(u64, Priority)> = Vec::new();
    let mut n: usize = 0;
    while n < input.len()
        invariant
            n <= input@.len(),
            out@.len() == n,
            distinct_cand_ids(input@),
            sorted_desc(out@),
            distinct_cand_ids(out@),
            forall|x: (u64, Priority)| out@.contains(x) == input@.take(n as int).contains(x),
            count_noncrit(out@) == count_noncrit(input@.take(n as int)),
        decreases input@.len() - n,
    {
        let x = input[n];
        let ghost o_old = out@;
        let mut q: usize = 0;
        loop
            invariant
                q <= out@.len(),
                out@ == o_old,
                forall|m: int| 0 <= m < q ==> x.1.spec_le(#[trigger] out@[m].1),
            ensures
                q <= out@.len(),
                out@ == o_old,
                forall|m: int| 0 <= m < q ==> x.1.spec_le(#[trigger] out@[m].1),
                q == out@.len() || !x.1.spec_le(out@[q as int].1),
            decreases out@.len() - q,
        {
            if q == out.len() {
                break ;
            }
            if !x.1.le(out[q].1) {
                break ;
            }
            q = q + 1;
        }
        out.insert(q, x);
        proof {
            let qi = q as int;
            assert(out@ == o_old.insert(qi, x));
            // The inserted sequence is still sorted.
            assert forall|a: int, b: int| 0 <= a < b < out@.len() implies out@[b].1.spec_le(
                out@[a].1,
            ) by {
                if a < qi && b < qi {
                } else if a < qi && b == qi {
                } else if a < qi && b > qi {
                    assert(out@[b] == o_old[b - 1]);
                } else if a == qi && b > qi {
                    assert(out@[b] == o_old[b - 1]);
                    lemma_le_total(x.1, o_old[qi].1);
                    if b - 1 > qi {
                        assert(o_old[b - 1].1.spec_le(o_old[qi].1));
                        lemma_le_trans(o_old[b - 1].1, o_old[qi].1, x.1);
                    }
                } else {
                    assert(out@[a] == o_old[a - 1]);
                    assert(out@[b] == o_old[b - 1]);
                }
            }
            // Membership: exactly the old candidates plus the new one.
            assert forall|y: (u64, Priority)| out@.contains(y) implies (o_old.contains(y) || y
                == x) by {
                let m = choose|m: int| 0 <= m < out@.len() && out@[m] == y;
                if m < qi {
                    assert(o_old[m] == y);
                } else if m > qi {
                    assert(o_old[m - 1] == y);
                }
            }
            assert forall|y: (u64, Priority)| o_old.contains(y) || y == x implies out@.contains(
                y,
            ) by {
                if y == x {
                    assert(out@[qi] == y);
                } else {
                    let m = choose|m: int| 0 <= m < o_old.len() && o_old[m] == y;
                    if m < qi {
                        assert(out@[m] == y);
                    } else {
                        assert(out@[m + 1] == y);
                    }
                }
            }
            assert(input@.take(n + 1).drop_last() =~= input@.take(n as int));
            assert(input@.take(n + 1).last() == input@[n as int]);
            assert forall|y: (u64, Priority)| input@.take(n + 1).contains(y) implies (
            input@.take(n as int).contains(y) || y == x) by {
                let m = choose|m: int| 0 <= m < n + 1 && #[trigger] input@.take(n + 1)[m] == y;
                if m < n {
                    assert(input@.take(n as int)[m] == y);
                }
            }
            assert forall|y: (u64, Priority)| input@.take(n as int).contains(y) || y == x implies
                input@.take(n + 1).contains(y) by {
                if y == x {
                    assert(input@.take(n + 1)[n as int] == y);
                } else {
                    let m = choose|m: int|
                        0 <= m < n && input@.take(n as int)[m] == y;
                    assert(input@.take(n + 1)[m] == y);
                }
            }
            assert forall|y: (u64, Priority)| out@.contains(y) == input@.take(n + 1).contains(
                y,
            ) by {
                assert(out@.contains(y) == (o_old.contains(y) || y == x));
                assert(input@.take(n + 1).contains(y) == (input@.take(n as int).contains(y) || y
                    == x));
            }
            // The new identifier was not among the old ones.
            assert forall|m: int| 0 <= m < o_old.len() implies o_old[m].0 != x.0 by {
                assert(o_old.contains(o_old[m]));
                assert(input@.take(n as int).contains(o_old[m]));
                let j = choose|j: int|
                    0 <= j < n && input@.take(n as int)[j] == o_old[m];
                assert(input@[j] == o_old[m]);
                assert(input@[j].0 != input@[n as int].0);
            }
            assert forall|a: int, b: int| 0 <= a < b < out@.len() implies out@[a].0 != out@[b].0 by {
                if a < qi && b < qi {
                } else if a < qi && b == qi {
                } else if a < qi && b > qi {
                    assert(out@[b] == o_old[b - 1]);
                } else if a == qi {
                    assert(out@[b] == o_old[b - 1]);
                } else {
                    assert(out@[a] == o_old[a - 1]);
                    assert(out@[b] == o_old[b - 1]);
                }
            }
            lemma_count_noncrit_insert(o_old, qi, x);
        }
        n = n + 1;
    }
    proof {
        assert(input@.take(input@.len() as int) =~= input@);
    }
    out
}

impl Scheduler {
    /// The selection phase of a tick: returns the identifiers of the jobs
    /// to execute now, in descending order of effective priority. Every
    /// ready critical job is included unconditionally; ready non-critical
    /// jobs are included, highest effective priority first, until the
    /// per-tick budget is reached. Ties are broken deterministically from
    /// the table snapshot.
    pub fn select_jobs(&self) -> (batch: Vec<u64>)
        requires
            self.wf(),
        ensures
            forall|k: int|
                0 <= k < batch@.len() ==> has_id(self.jobs@, #[trigger] batch@[k]) && self.jobs@[
                    idx_of(self.jobs@, batch@[k])
                ].status is Ready,
            forall|a: int, b: int| 0 <= a < b < batch@.len() ==> batch@[a] != batch@[b],
            forall|a: int, b: int|
                0 <= a < b < batch@.len() ==> computed_of(self.jobs@, batch@[b]).spec_le(
                    computed_of(self.jobs@, batch@[a]),
                ),
            forall|i: int|
                0 <= i < self.jobs@.len() && (#[trigger] self.jobs@[i]).status is Ready
                    && self.jobs@[i].computed is Critical ==> batch@.contains(self.jobs@[i].id),
            count_noncrit_ids(self.jobs@, batch@) == min_spec(
                self.settings.max_jobs_per_frame as int,
                count_ready_noncrit(self.jobs@),
            ),
            forall|i: int, k: int|
                0 <= i < self.jobs@.len() && (#[trigger] self.jobs@[i]).status is Ready && !(
                self.jobs@[i].computed is Critical) && !batch@.contains(self.jobs@[i].id) && 0 <= k
                    < batch@.len() && !(computed_of(self.jobs@, #[trigger] batch@[k]) is Critical)
                    ==> self.jobs@[i].computed.spec_le(computed_of(self.jobs@, batch@[k])),
    {
        let ghost s = self.jobs@;
        let budget = self.settings.max_jobs_per_frame;
        let cands = collect_candidates(&self.jobs);
        let sorted = sort_candidates(cands);
        proof {
            assert forall|k: int| 0 <= k < sorted@.len() implies cand_ok(
                s,
                #[trigger] sorted@[k],
            ) by {
                assert(sorted@.contains(sorted@[k]));
                assert(cands@.contains(sorted@[k]));
                let j = choose|j: int| 0 <= j < cands@.len() && cands@[j] == sorted@[k];
                assert(cand_ok(s, cands@[j]));
            }
        }
        let mut batch: Vec<u64> = Vec::new();
        let mut ncount: u32 = 0;
        let ghost mut sel_idx: Seq<int> = Seq::empty();
        let ghost mut any_skip: bool = false;
        let mut k: usize = 0;
        while k < sorted.len()
            invariant
                k <= sorted@.len(),
                ncount <= budget,
                budget == self.settings.max_jobs_per_frame,
                self.wf(),
                s == self.jobs@,
                sorted_desc(sorted@),
                distinct_cand_ids(sorted@),
                forall|m: int| 0 <= m < sorted@.len() ==> cand_ok(s, #[trigger] sorted@[m]),
                sel_idx.len() == batch@.len(),
                forall|m: int| 0 <= m < sel_idx.len() ==> 0 <= #[trigger] sel_idx[m] < k,
                forall|a: int, b: int| 0 <= a < b < sel_idx.len() ==> sel_idx[a] < sel_idx[b],
                forall|m: int|
                    0 <= m < batch@.len() ==> #[trigger] batch@[m] == sorted@[sel_idx[m]].0,
                ncount as int == count_noncrit_ids(s, batch@),
                ncount as int == min_spec(budget as int, count_noncrit(sorted@.take(k as int))),
                !any_skip ==> forall|m: int|
                    0 <= m < k && !((#[trigger] sorted@[m]).1 is Critical) ==> batch@.contains(
                        sorted@[m].0,
                    ),
                any_skip ==> ncount == budget,
                forall|m: int|
                    0 <= m < k && (#[trigger] sorted@[m]).1 is Critical ==> batch@.contains(
                        sorted@[m].0,
                    ),
                forall|m: int, a: int|
                    0 <= m < k && !((#[trigger] sorted@[m]).1 is Critical) && !batch@.contains(
                        sorted@[m].0,
                    ) && 0 <= a < batch@.len() && !(sorted@[#[trigger] sel_idx[a]].1 is Critical)
                        ==> sorted@[m].1.spec_le(sorted@[sel_idx[a]].1),
            decreases sorted@.len() - k,
        {
            let x = sorted[k];
            proof {
                assert(sorted@.take(k + 1).drop_last() =~= sorted@.take(k as int));
                assert(sorted@.take(k + 1).last() == sorted@[k as int]);
            }
            let crit = x.1.is_critical();
            let ghost b_old = batch@;
            if crit {
                batch.push(x.0);
                proof {
                    sel_idx = sel_idx.push(k as int);
                    assert(batch@ == b_old.push(x.0));
                    assert(batch@.drop_last() =~= b_old);
                    assert(computed_of(s, x.0) == x.1);
                    assert(count_noncrit_ids(s, batch@) == count_noncrit_ids(s, b_old));
                    assert forall|m: int|
                        0 <= m < k + 1 && b_old.contains(#[trigger] sorted@[m].0) implies
                        batch@.contains(sorted@[m].0) by {
                        lemma_contains_push(b_old, x.0, sorted@[m].0);
                    }
                    assert(batch@.contains(sorted@[k as int].0)) by {
                        assert(batch@[batch@.len() - 1] == sorted@[k as int].0);
                    }
                    assert forall|m: int, a: int|
                        0 <= m < k + 1 && !((#[trigger] sorted@[m]).1 is Critical)
                            && !batch@.contains(sorted@[m].0) && 0 <= a < batch@.len() && !(
                        sorted@[#[trigger] sel_idx[a]].1 is Critical) implies sorted@[
                        m
                    ].1.spec_le(sorted@[sel_idx[a]].1) by {
                        assert(!b_old.contains(sorted@[m].0));
                        assert(m < k);
                        assert(a < b_old.len());
                    }
                }
            } else if ncount < budget {
                batch.push(x.0);
                ncount = ncount + 1;
                proof {
                    sel_idx = sel_idx.push(k as int);
                    assert(batch@ == b_old.push(x.0));
                    assert(batch@.drop_last() =~= b_old);
                    assert(computed_of(s, x.0) == x.1);
                    assert(count_noncrit_ids(s, batch@) == count_noncrit_ids(s, b_old) + 1);
                    assert(!any_skip);
                    assert forall|m: int|
                        0 <= m < k + 1 && b_old.contains(#[trigger] sorted@[m].0) implies
                        batch@.contains(sorted@[m].0) by {
                        lemma_contains_push(b_old, x.0, sorted@[m].0);
                    }
                    assert(batch@.contains(sorted@[k as int].0)) by {
                        assert(batch@[batch@.len() - 1] == sorted@[k as int].0);
                    }
                    // With the budget unexhausted, no non-critical
                    // candidate has been passed over so far, so the
                    // dominance invariant stays vacuous.
                    assert forall|m: int, a: int|
                        0 <= m < k + 1 && !((#[trigger] sorted@[m]).1 is Critical)
                            && !batch@.contains(sorted@[m].0) && 0 <= a < batch@.len() && !(
                        sorted@[#[trigger] sel_idx[a]].1 is Critical) implies sorted@[
                        m
                    ].1.spec_le(sorted@[sel_idx[a]].1) by {
                        if m < k {
                            assert(b_old.contains(sorted@[m].0));
                            assert(false);
                        } else {
                            assert(false);
                        }
                    }
                }
            } else {
                proof {
                    any_skip = true;
                    // The skipped candidate is not in the batch: its
                    // identifier differs from every selected one.
                    assert forall|a: int| 0 <= a < batch@.len() implies batch@[a] != sorted@[
                        k as int
                    ].0 by {
                        assert(batch@[a] == sorted@[sel_idx[a]].0);
                        assert(sel_idx[a] < k);
                    }
                    assert(!batch@.contains(sorted@[k as int].0)) by {
                        if batch@.contains(sorted@[k as int].0) {
                            let w = choose|w: int|
                                0 <= w < batch@.len() && batch@[w] == sorted@[k as int].0;
                        }
                    }
                    // Everything already selected outranks the candidate
                    // being passed over.
                    assert forall|m: int, a: int|
                        0 <= m < k + 1 && !((#[trigger] sorted@[m]).1 is Critical)
                            && !batch@.contains(sorted@[m].0) && 0 <= a < batch@.len() && !(
                        sorted@[#[trigger] sel_idx[a]].1 is Critical) implies sorted@[
                        m
                    ].1.spec_le(sorted@[sel_idx[a]].1) by {
                        if m == k {
                            assert(sel_idx[a] < k);
                            assert(sorted@[k as int].1.spec_le(sorted@[sel_idx[a]].1));
                        }
                    }
                }
            }
            k = k + 1;
        }
        proof {
            assert(sorted@.take(sorted@.len() as int) =~= sorted@);
            // Ready critical jobs of the table are all selected.
            assert forall|i: int|
                0 <= i < s.len() && (#[trigger] s[i]).status is Ready && s[i].computed
                    is Critical implies batch@.contains(s[i].id) by {
                assert(cands@.contains((s[i].id, s[i].computed)));
                assert(sorted@.contains((s[i].id, s[i].computed)));
                let m = choose|m: int|
                    0 <= m < sorted@.len() && sorted@[m] == (s[i].id, s[i].computed);
                assert(sorted@[m].1 is Critical);
            }
            // The non-critical count of the batch is the budgeted minimum.
            assert(count_noncrit(sorted@) == count_ready_noncrit(s));
            // Batch entries are ready jobs, listed in descending priority.
            assert forall|kk: int| 0 <= kk < batch@.len() implies has_id(
                s,
                #[trigger] batch@[kk],
            ) && s[idx_of(s, batch@[kk])].status is Ready && computed_of(s, batch@[kk]) == sorted@[
                sel_idx[kk]
            ].1 by {
                assert(batch@[kk] == sorted@[sel_idx[kk]].0);
                assert(cand_ok(s, sorted@[sel_idx[kk]]));
            }
            assert forall|a: int, b: int| 0 <= a < b < batch@.len() implies batch@[a] != batch@[
                b
            ] by {
                assert(sel_idx[a] < sel_idx[b]);
                assert(sorted@[sel_idx[a]].0 != sorted@[sel_idx[b]].0);
            }
            assert forall|a: int, b: int| 0 <= a < b < batch@.len() implies computed_of(
                s,
                batch@[b],
            ).spec_le(computed_of(s, batch@[a])) by {
                assert(sel_idx[a] < sel_idx[b]);
                assert(sorted@[sel_idx[b]].1.spec_le(sorted@[sel_idx[a]].1));
            }
            // Passed-over non-critical jobs never outrank a selected
            // non-critical job.
            assert forall|i: int, kk: int|
                0 <= i < s.len() && (#[trigger] s[i]).status is Ready && !(s[i].computed
                    is Critical) && !batch@.contains(s[i].id) && 0 <= kk < batch@.len() && !(
                computed_of(s, #[trigger] batch@[kk]) is Critical) implies s[i].computed.spec_le(
                computed_of(s, batch@[kk]),
            ) by {
                assert(cands@.contains((s[i].id, s[i].computed)));
                assert(sorted@.contains((s[i].id, s[i].computed)));
                let m = choose|m: int|
                    0 <= m < sorted@.len() && sorted@[m] == (s[i].id, s[i].computed);
                assert(computed_of(s, batch@[kk]) == sorted@[sel_idx[kk]].1);
                assert(sorted@[m].1.spec_le(sorted@[sel_idx[kk]].1));
            }
        }
        batch
    }
}

} // verus!
