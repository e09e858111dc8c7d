//! The dependency graph: each job records the identifiers of the jobs it
//! depends on, and a newly accepted job propagates its priority additively
//! to every distinct transitive dependency, visiting each at most once even
//! through cycles and diamonds.

use vstd::prelude::*;
use vstd::set_lib::lemma_len_subset;
use vstd::seq_lib::seq_to_set_is_finite;

use crate::meta::Priority;
use crate::runner::all_wf;
use crate::runner::find_job;
use crate::runner::has_id;
use crate::runner::idx_of;
use crate::runner::lemma_idx_unique;
use crate::runner::unique_ids;
use crate::runner::JobState;
use crate::runner::JobStatus;
use crate::runner::Scheduler;

verus! {

/// The dependency list of the job with the given identifier; a job the
/// table does not hold has no dependencies.
pub open spec fn deps_of(s: Seq<JobState>, id: u64) -> Seq<u64> {
    if has_id(s, id) {
        s[idx_of(s, id)].deps@
    } else {
        Seq::empty()
    }
}

/// A dependency path out of `root`: the first entry is one of the root's
/// dependencies, and each later entry is a dependency of the one before it.
pub open spec fn is_dep_path(s: Seq<JobState>, root: u64, p: Seq<u64>) -> bool {
    &&& p.len() >= 1
    &&& deps_of(s, root).contains(p[0])
    &&& forall|i: int| 0 <= i < p.len() - 1 ==> deps_of(s, #[trigger] p[i]).contains(p[i + 1])
}

/// Whether `x` is a transitive dependency of `root` in the table.
pub open spec fn reaches(s: Seq<JobState>, root: u64, x: u64) -> bool {
    exists|p: Seq<u64>| is_dep_path(s, root, p) && p.last() == x
}

/// Every dependency identifier recorded anywhere in the table, in table
/// order.
pub open spec fn all_dep_ids(s: Seq<JobState>) -> Seq<u64>
    decreases s.len(),
{
    if s.len() == 0 {
        Seq::empty()
    } else {
        all_dep_ids(s.drop_last()) + s.last().deps@
    }
}

/// A dependency recorded by any job in the table occurs in the combined
/// dependency list.
proof fn lemma_all_dep_ids_cover(s: Seq<JobState>, i: int, d: u64)
    requires
        0 <= i < s.len(),
        s[i].deps@.contains(d),
    ensures
        all_dep_ids(s).contains(d),
    decreases s.len(),
{
    if i == s.len() - 1 {
        let j = choose|j: int| 0 <= j < s[i].deps@.len() && s[i].deps@[j] == d;
        assert(all_dep_ids(s)[all_dep_ids(s.drop_last()).len() + j] == d);
    } else {
        assert(s.drop_last()[i].deps@.contains(d));
        lemma_all_dep_ids_cover(s.drop_last(), i, d);
        let j = choose|j: int|
            0 <= j < all_dep_ids(s.drop_last()).len() && all_dep_ids(s.drop_last())[j] == d;
        assert(all_dep_ids(s)[j] == d);
    }
}

/// A sequence without duplicates whose elements all occur in another
/// sequence is no longer than it.
proof fn lemma_nodup_len_le(a: Seq<u64>, b: Seq<u64>)
    requires
        a.no_duplicates(),
        forall|k: int| 0 <= k < a.len() ==> b.contains(#[trigger] a[k]),
    ensures
        a.len() <= b.len(),
{
    a.unique_seq_to_set();
    b.lemma_cardinality_of_set();
    seq_to_set_is_finite(b);
    assert(a.to_set().subset_of(b.to_set())) by {
        assert forall|x: u64| a.to_set().contains(x) implies b.to_set().contains(x) by {
            let k = choose|k: int| 0 <= k < a.len() && a[k] == x;
            assert(b.contains(a[k]));
        }
    }
    lemma_len_subset(a.to_set(), b.to_set());
}

/// An element of a sequence is still an element after a push.
proof fn lemma_contains_after_push(s: Seq<u64>, x: u64, y: u64)
    requires
        s.contains(y),
    ensures
        s.push(x).contains(y),
{
    let w = choose|w: int| 0 <= w < s.len() && s[w] == y;
    assert(s.push(x)[w] == y);
}

/// Extending a dependency path by one dependency of its last entry keeps
/// it a path.
proof fn lemma_path_extend(s: Seq<JobState>, root: u64, p: Seq<u64>, d: u64)
    requires
        is_dep_path(s, root, p),
        deps_of(s, p.last()).contains(d),
    ensures
        is_dep_path(s, root, p.push(d)),
        p.push(d).last() == d,
{
    let q = p.push(d);
    assert forall|i: int| 0 <= i < q.len() - 1 implies deps_of(s, #[trigger] q[i]).contains(
        q[i + 1],
    ) by {
        if i < p.len() - 1 {
            assert(q[i] == p[i]);
            assert(q[i + 1] == p[i + 1]);
        } else {
            assert(q[i] == p.last());
            assert(q[i + 1] == d);
        }
    }
}

/// In a table closed under dependencies relative to a visited list, every
/// transitive dependency of the root is the root itself or visited.
proof fn lemma_closure_complete(s: Seq<JobState>, root: u64, visited: Seq<u64>, p: Seq<u64>)
    requires
        is_dep_path(s, root, p),
        forall|j: int|
            0 <= j < deps_of(s, root).len() ==> deps_of(s, root)[j] == root || visited.contains(
                #[trigger] deps_of(s, root)[j],
            ),
        forall|v: u64, j: int|
            visited.contains(v) && 0 <= j < deps_of(s, v).len() ==> deps_of(s, v)[j] == root
                || visited.contains(#[trigger] deps_of(s, v)[j]),
    ensures
        p.last() == root || visited.contains(p.last()),
    decreases p.len(),
{
    if p.len() == 1 {
        let j = choose|j: int| 0 <= j < deps_of(s, root).len() && deps_of(s, root)[j] == p[0];
        assert(deps_of(s, root)[j] == root || visited.contains(deps_of(s, root)[j]));
    } else {
        let q = p.drop_last();
        assert(is_dep_path(s, root, q)) by {
            assert forall|i: int| 0 <= i < q.len() - 1 implies deps_of(s, #[trigger] q[i]).contains(
                q[i + 1],
            ) by {
                assert(q[i] == p[i]);
                assert(q[i + 1] == p[i + 1]);
            }
        }
        lemma_closure_complete(s, root, visited, q);
        assert(deps_of(s, q.last()).contains(p.last())) by {
            assert(q.last() == p[p.len() - 2]);
            assert(deps_of(s, p[p.len() - 2]).contains(p[(p.len() - 2) + 1]));
        }
        let j = choose|j: int|
            0 <= j < deps_of(s, q.last()).len() && deps_of(s, q.last())[j] == p.last();
        if q.last() == root {
            assert(deps_of(s, root)[j] == root || visited.contains(deps_of(s, root)[j]));
        } else {
            assert(deps_of(s, q.last())[j] == root || visited.contains(deps_of(s, q.last())[j]));
        }
    }
}

/// Whether a list of identifiers holds the given one.
fn contains_id(v: &Vec<u64>, x: u64) -> (r: bool)
    ensures
        r == v@.contains(x),
{
    let mut i: usize = 0;
    while i < v.len()
        invariant
            i <= v@.len(),
            forall|m: int| 0 <= m < i ==> v@[m] != x,
        decreases v@.len() - i,
    {
        if v[i] == x {
            return true;
        }
        i = i + 1;
    }
    false
}

impl Scheduler {
    /// Propagates a newly accepted job's priority to its transitive
    /// dependencies: a breadth-first traversal from `root_id` visits every
    /// distinct transitive dependency exactly once — cycles and diamonds
    /// included — and adds `root_priority` into each visited job's
    /// effective priority. Jobs the traversal does not visit, and the root
    /// itself, are untouched. The returned list holds each visited
    /// identifier once: exactly the transitive dependencies of the root,
    /// other than the root.
    /// The setup phase for one newly arrived job: the scheduler takes
    /// ownership of its bookkeeping — status `Waiting`, stall counter zero,
    /// effective priority equal to its declared priority — and immediately
    /// propagates the new job's priority to its transitive dependencies, so
    /// that jobs with many dependents accumulate effective priority.
    pub fn accept_job(&mut self, id: u64, origin: Option<u64>, priority: Priority, deps: Vec<u64>)
        requires
            old(self).wf(),
            priority.wf(),
            !has_id(old(self).jobs@, id),
        ensures
            final(self).wf(),
            final(self).settings == old(self).settings,
            final(self).jobs@.len() == old(self).jobs@.len() + 1,
            ({
                let new_rec = final(self).jobs@.last();
                &&& new_rec.id == id
                &&& new_rec.origin == origin
                &&& new_rec.priority == priority
                &&& new_rec.computed == priority
                &&& new_rec.deps@ == deps@
                &&& new_rec.status is Waiting
                &&& new_rec.stalled == 0
            }),
            forall|i: int|
                0 <= i < old(self).jobs@.len() ==> {
                    let oj = #[trigger] old(self).jobs@[i];
                    let nj = final(self).jobs@[i];
                    let s1 = old(self).jobs@.push(final(self).jobs@.last());
                    nj.id == oj.id && nj.origin == oj.origin && nj.priority == oj.priority
                        && nj.deps == oj.deps && nj.status == oj.status && nj.stalled == oj.stalled
                        && nj.computed == if reaches(s1, id, oj.id) && oj.id != id {
                        oj.computed.spec_combine(priority)
                    } else {
                        oj.computed
                    }
                },
    {
        let record = JobState {
            id,
            origin,
            priority,
            computed: priority,
            deps,
            status: JobStatus::Waiting,
            stalled: 0,
        };
        let ghost s0 = self.jobs@;
        self.jobs.push(record);
        let ghost s1 = self.jobs@;
        proof {
            assert(unique_ids(s1)) by {
                assert forall|a: int, b: int| 0 <= a < b < s1.len() implies s1[a].id != s1[b].id by {
                    if b < s1.len() - 1 {
                        assert(s0[a].id != s0[b].id);
                    } else {
                        if s1[a].id == id {
                            assert(s0[a].id == id);
                            assert(has_id(s0, id));
                        }
                    }
                }
            }
            assert(all_wf(s1)) by {
                assert forall|i: int| 0 <= i < s1.len() implies (#[trigger] s1[i]).wf() by {
                    if i < s1.len() - 1 {
                        assert(s0[i].wf());
                    }
                }
            }
        }
        let visited = self.propagate(id, priority);
        proof {
            assert(final(self).jobs@.last() == s1.last()) by {
                assert(!visited@.contains(id));
            }
            assert(final(self).jobs@.len() == s1.len());
            assert forall|i: int| 0 <= i < s0.len() implies {
                let oj = #[trigger] s0[i];
                let nj = final(self).jobs@[i];
                let sp = s0.push(final(self).jobs@.last());
                nj.id == oj.id && nj.origin == oj.origin && nj.priority == oj.priority && nj.deps
                    == oj.deps && nj.status == oj.status && nj.stalled == oj.stalled && nj.computed
                    == if reaches(sp, id, oj.id) && oj.id != id {
                    oj.computed.spec_combine(priority)
                } else {
                    oj.computed
                }
            } by {
                assert(s0.push(final(self).jobs@.last()) =~= s1);
                assert(s1[i] == s0[i]);
                assert(visited@.contains(s0[i].id) == (reaches(s1, id, s0[i].id) && s0[i].id
                    != id));
            }
        }
    }

    pub fn propagate(&mut self, root_id: u64, root_priority: Priority) -> (visited: Vec<u64>)
        requires
            old(self).wf(),
            root_priority.wf(),
        ensures
            final(self).wf(),
            final(self).settings == old(self).settings,
            final(self).jobs@.len() == old(self).jobs@.len(),
            forall|i: int|
                0 <= i < old(self).jobs@.len() ==> {
                    let oj = #[trigger] old(self).jobs@[i];
                    let nj = final(self).jobs@[i];
                    nj.id == oj.id && nj.origin == oj.origin && nj.priority == oj.priority
                        && nj.deps == oj.deps && nj.status == oj.status && nj.stalled == oj.stalled
                        && nj.computed == if visited@.contains(oj.id) {
                        oj.computed.spec_combine(root_priority)
                    } else {
                        oj.computed
                    }
                },
            visited@.no_duplicates(),
            forall|x: u64|
                #[trigger] visited@.contains(x) == (reaches(old(self).jobs@, root_id, x) && x
                    != root_id),
    {
        let ghost s0 = self.jobs@;
        let mut visited: Vec<u64> = Vec::new();
        let mut queue: Vec<u64> = Vec::new();
        let ghost mut seen: Seq<u64> = Seq::empty();
        let root_found = find_job(&self.jobs, root_id);
        let ri = match root_found {
            Some(ri) => ri,
            None => {
                proof {
                    assert forall|x: u64| !reaches(s0, root_id, x) by {
                        if reaches(s0, root_id, x) {
                            let p = choose|p: Seq<u64>|
                                is_dep_path(s0, root_id, p) && p.last() == x;
                            assert(deps_of(s0, root_id).len() == 0);
                            assert(deps_of(s0, root_id).contains(p[0]));
                        }
                    }
                }
                return visited;
            },
        };
        proof {
            lemma_idx_unique(s0, root_id, ri as int);
            assert(deps_of(s0, root_id) == s0[ri as int].deps@);
        }
        // Seed the frontier with the root's direct dependencies.
        let mut di: usize = 0;
        let deps_len = self.jobs[ri].deps.len();
        while di < deps_len
            invariant
                self.jobs@ == s0,
                self.wf(),
                unique_ids(s0),
                ri < s0.len(),
                s0[ri as int].id == root_id,
                has_id(s0, root_id),
                deps_of(s0, root_id) == s0[ri as int].deps@,
                deps_len == s0[ri as int].deps@.len(),
                di <= deps_len,
                visited@.len() == 0,
                visited@ + queue@ == seen,
                seen.no_duplicates(),
                forall|k: int| 0 <= k < seen.len() ==> #[trigger] seen[k] != root_id,
                forall|k: int|
                    0 <= k < seen.len() ==> reaches(s0, root_id, #[trigger] seen[k]),
                forall|k: int|
                    0 <= k < seen.len() ==> all_dep_ids(s0).contains(#[trigger] seen[k]),
                seen.len() <= all_dep_ids(s0).len(),
                forall|j: int|
                    0 <= j < di ==> (#[trigger] s0[ri as int].deps@[j] == root_id
                        || seen.contains(s0[ri as int].deps@[j])),
            decreases deps_len - di,
        {
            let d = self.jobs[ri].deps[di];
            let ghost seen_old = seen;
            if d != root_id && !contains_id(&queue, d) {
                queue.push(d);
                proof {
                    seen = seen.push(d);
                    assert(visited@ + queue@ =~= seen);
                    assert(reaches(s0, root_id, d)) by {
                        let p = seq![d];
                        assert(deps_of(s0, root_id).contains(p[0]));
                        assert(is_dep_path(s0, root_id, p));
                        assert(p.last() == d);
                    }
                    assert(all_dep_ids(s0).contains(d)) by {
                        lemma_all_dep_ids_cover(s0, ri as int, d);
                    }
                    assert(seen.no_duplicates()) by {
                        assert(visited@.len() == 0);
                        assert(!seen_old.contains(d)) by {
                            if seen_old.contains(d) {
                                let w = choose|w: int|
                                    0 <= w < seen_old.len() && seen_old[w] == d;
                                assert(queue@.drop_last()[w] == d);
                            }
                        }
                    }
                    assert(seen.len() <= all_dep_ids(s0).len()) by {
                        lemma_nodup_len_le(seen, all_dep_ids(s0));
                    }
                    assert forall|k: int| 0 <= k < seen.len() implies #[trigger] seen[k]
                        != root_id && reaches(s0, root_id, seen[k]) && all_dep_ids(s0).contains(
                        seen[k],
                    ) by {
                        if k < seen_old.len() {
                            assert(seen[k] == seen_old[k]);
                        }
                    }
                    assert forall|j: int| 0 <= j < di + 1 implies (#[trigger] s0[
                        ri as int
                    ].deps@[j] == root_id || seen.contains(s0[ri as int].deps@[j])) by {
                        if j < di {
                            if s0[ri as int].deps@[j] != root_id {
                                lemma_contains_after_push(seen_old, d, s0[ri as int].deps@[j]);
                            }
                        } else {
                            assert(seen[seen.len() - 1] == d);
                        }
                    }
                }
            } else {
                proof {
                    assert forall|j: int| 0 <= j < di + 1 implies (#[trigger] s0[
                        ri as int
                    ].deps@[j] == root_id || seen.contains(s0[ri as int].deps@[j])) by {
                        if j == di && d != root_id {
                            let w = choose|w: int| 0 <= w < queue@.len() && queue@[w] == d;
                            assert(seen[visited@.len() + w] == d);
                        }
                    }
                }
            }
            di = di + 1;
        }
        // Walk the frontier, visiting each dependency once.
        while queue.len() > 0
            invariant
                self.wf(),
                self.settings == old(self).settings,
                unique_ids(s0),
                all_wf(s0),
                root_priority.wf(),
                has_id(s0, root_id),
                self.jobs@.len() == s0.len(),
                forall|i: int|
                    0 <= i < s0.len() ==> {
                        let oj = #[trigger] s0[i];
                        let nj = self.jobs@[i];
                        nj.id == oj.id && nj.origin == oj.origin && nj.priority == oj.priority
                            && nj.deps == oj.deps && nj.status == oj.status && nj.stalled
                            == oj.stalled && nj.computed == if visited@.contains(oj.id) {
                            oj.computed.spec_combine(root_priority)
                        } else {
                            oj.computed
                        }
                    },
                visited@ + queue@ == seen,
                seen.no_duplicates(),
                forall|k: int| 0 <= k < seen.len() ==> #[trigger] seen[k] != root_id,
                forall|k: int|
                    0 <= k < seen.len() ==> reaches(s0, root_id, #[trigger] seen[k]),
                forall|k: int|
                    0 <= k < seen.len() ==> all_dep_ids(s0).contains(#[trigger] seen[k]),
                seen.len() <= all_dep_ids(s0).len(),
                forall|j: int|
                    0 <= j < deps_of(s0, root_id).len() ==> (#[trigger] deps_of(s0, root_id)[j]
                        == root_id || seen.contains(deps_of(s0, root_id)[j])),
                forall|v: u64, j: int|
                    visited@.contains(v) && 0 <= j < deps_of(s0, v).len() ==> (#[trigger] deps_of(
                        s0,
                        v,
                    )[j] == root_id || seen.contains(deps_of(s0, v)[j])),
            decreases all_dep_ids(s0).len() - seen.len() + queue@.len(),
        {
            let v = queue.remove(0);
            let ghost visited_old = visited@;
            let ghost queue_old_after_pop = queue@;
            proof {
                assert(visited_old + queue_old_after_pop.insert(0, v) == seen);
                assert(seen[visited_old.len() as int] == v);
                assert(seen.contains(v)) by {
                    assert(seen[visited_old.len() as int] == v);
                }
            }
            let found = find_job(&self.jobs, v);
            match found {
                Some(i) => {
                    proof {
                        assert(unique_ids(self.jobs@)) by {
                            assert forall|a: int, b: int|
                                0 <= a < b < self.jobs@.len() implies self.jobs@[a].id
                                != self.jobs@[b].id by {
                                assert(s0[a].id != s0[b].id);
                            }
                        }
                        lemma_idx_unique(s0, v, i as int);
                        assert(s0[i as int].id == v);
                        assert(!visited_old.contains(v)) by {
                            if visited_old.contains(v) {
                                let w = choose|w: int|
                                    0 <= w < visited_old.len() && visited_old[w] == v;
                                assert(seen[w] == v);
                                assert(seen[visited_old.len() as int] == v);
                            }
                        }
                        assert(self.jobs@[i as int].computed == s0[i as int].computed);
                    }
                    let mut j = self.jobs.remove(i);
                    j.computed = j.computed.combine(root_priority);
                    self.jobs.insert(i, j);
                    visited.push(v);
                    proof {
                        assert(visited@ == visited_old.push(v));
                        assert(visited@ + queue@ =~= seen);
                        assert forall|ii: int| 0 <= ii < s0.len() implies {
                            let oj = #[trigger] s0[ii];
                            let nj = self.jobs@[ii];
                            nj.id == oj.id && nj.origin == oj.origin && nj.priority == oj.priority
                                && nj.deps == oj.deps && nj.status == oj.status && nj.stalled
                                == oj.stalled && nj.computed == if visited@.contains(oj.id) {
                                oj.computed.spec_combine(root_priority)
                            } else {
                                oj.computed
                            }
                        } by {
                            assert(visited@.contains(s0[ii].id) == (visited_old.contains(
                                s0[ii].id,
                            ) || s0[ii].id == v)) by {
                                if visited@.contains(s0[ii].id) {
                                    let w = choose|w: int|
                                        0 <= w < visited@.len() && visited@[w] == s0[ii].id;
                                    if w < visited_old.len() {
                                        assert(visited_old[w] == s0[ii].id);
                                    }
                                } else {
                                    if visited_old.contains(s0[ii].id) {
                                        let w = choose|w: int|
                                            0 <= w < visited_old.len() && visited_old[w] == s0[
                                            ii].id;
                                        assert(visited@[w] == s0[ii].id);
                                    }
                                    assert(visited@[visited@.len() - 1] == v);
                                }
                            }
                            if ii != i as int {
                                assert(s0[ii].id != v);
                            }
                        }
                        assert(all_wf(self.jobs@)) by {
                            assert forall|ii: int|
                                0 <= ii < self.jobs@.len() implies (#[trigger] self.jobs@[
                                ii]).wf() by {
                                assert(s0[ii].wf());
                            }
                        }
                        assert(unique_ids(self.jobs@)) by {
                            assert forall|a: int, b: int|
                                0 <= a < b < self.jobs@.len() implies self.jobs@[a].id
                                != self.jobs@[b].id by {
                                assert(s0[a].id != s0[b].id);
                            }
                        }
                    }
                    // Enqueue this dependency's own dependencies.
                    let mut dj: usize = 0;
                    let ghost v_deps = deps_of(s0, v);
                    proof {
                        assert(v_deps == s0[i as int].deps@);
                        assert(self.jobs@[i as int].deps == s0[i as int].deps);
                    }
                    let dlen = self.jobs[i].deps.len();
                    while dj < dlen
                        invariant
                            self.wf(),
                            self.settings == old(self).settings,
                            unique_ids(s0),
                            all_wf(s0),
                            root_priority.wf(),
                            has_id(s0, root_id),
                            i < self.jobs@.len(),
                            self.jobs@.len() == s0.len(),
                            dj <= dlen,
                            v_deps == deps_of(s0, v),
                            dlen == v_deps.len(),
                            self.jobs@[i as int].deps@ == v_deps,
                            seen.contains(v),
                            reaches(s0, root_id, v),
                            forall|ii: int|
                                0 <= ii < s0.len() ==> {
                                    let oj = #[trigger] s0[ii];
                                    let nj = self.jobs@[ii];
                                    nj.id == oj.id && nj.origin == oj.origin && nj.priority
                                        == oj.priority && nj.deps == oj.deps && nj.status
                                        == oj.status && nj.stalled == oj.stalled && nj.computed
                                        == if visited@.contains(oj.id) {
                                        oj.computed.spec_combine(root_priority)
                                    } else {
                                        oj.computed
                                    }
                                },
                            visited@ + queue@ == seen,
                            seen.no_duplicates(),
                            forall|k: int| 0 <= k < seen.len() ==> #[trigger] seen[k] != root_id,
                            forall|k: int|
                                0 <= k < seen.len() ==> reaches(s0, root_id, #[trigger] seen[k]),
                            forall|k: int|
                                0 <= k < seen.len() ==> all_dep_ids(s0).contains(
                                    #[trigger] seen[k],
                                ),
                            seen.len() <= all_dep_ids(s0).len(),
                            forall|j: int|
                                0 <= j < deps_of(s0, root_id).len() ==> (#[trigger] deps_of(
                                    s0,
                                    root_id,
                                )[j] == root_id || seen.contains(deps_of(s0, root_id)[j])),
                            forall|w: u64, j: int|
                                visited@.contains(w) && w != v && 0 <= j < deps_of(s0, w).len()
                                    ==> (#[trigger] deps_of(s0, w)[j] == root_id || seen.contains(
                                    deps_of(s0, w)[j],
                                )),
                            forall|j: int|
                                0 <= j < dj ==> (#[trigger] v_deps[j] == root_id || seen.contains(
                                    v_deps[j],
                                )),
                        decreases dlen - dj,
                    {
                        let d = self.jobs[i].deps[dj];
                        let ghost seen_old = seen;
                        let in_visited = contains_id(&visited, d);
                        let in_queue = contains_id(&queue, d);
                        if d != root_id && !in_visited && !in_queue {
                            queue.push(d);
                            proof {
                                seen = seen.push(d);
                                assert(visited@ + queue@ =~= seen);
                                assert(!seen_old.contains(d)) by {
                                    if seen_old.contains(d) {
                                        let w = choose|w: int|
                                            0 <= w < seen_old.len() && seen_old[w] == d;
                                        if w < visited@.len() {
                                            assert(visited@[w] == d);
                                        } else {
                                            assert(queue@.drop_last()[w - visited@.len()] == d);
                                        }
                                    }
                                }
                                assert(reaches(s0, root_id, d)) by {
                                    let pv = choose|pv: Seq<u64>|
                                        is_dep_path(s0, root_id, pv) && pv.last() == v;
                                    lemma_path_extend(s0, root_id, pv, d);
                                }
                                assert(all_dep_ids(s0).contains(d)) by {
                                    lemma_all_dep_ids_cover(s0, idx_of(s0, v), d);
                                }
                                assert(seen.len() <= all_dep_ids(s0).len()) by {
                                    lemma_nodup_len_le(seen, all_dep_ids(s0));
                                }
                                assert forall|k: int| 0 <= k < seen.len() implies #[trigger] seen[
                                    k
                                ] != root_id && reaches(s0, root_id, seen[k]) && all_dep_ids(
                                    s0,
                                ).contains(seen[k]) by {
                                    if k < seen_old.len() {
                                        assert(seen[k] == seen_old[k]);
                                    }
                                }
                                assert forall|j: int| 0 <= j < dj + 1 implies (#[trigger] v_deps[
                                    j
                                ] == root_id || seen.contains(v_deps[j])) by {
                                    if j < dj {
                                        if v_deps[j] != root_id {
                                            lemma_contains_after_push(seen_old, d, v_deps[j]);
                                        }
                                    } else {
                                        assert(seen[seen.len() - 1] == d);
                                    }
                                }
                                assert forall|j: int|
                                    0 <= j < deps_of(s0, root_id).len() implies (
                                #[trigger] deps_of(s0, root_id)[j] == root_id || seen.contains(
                                    deps_of(s0, root_id)[j],
                                )) by {
                                    if deps_of(s0, root_id)[j] != root_id {
                                        lemma_contains_after_push(
                                            seen_old,
                                            d,
                                            deps_of(s0, root_id)[j],
                                        );
                                    }
                                }
                                assert forall|w: u64, j: int|
                                    visited@.contains(w) && w != v && 0 <= j < deps_of(
                                        s0,
                                        w,
                                    ).len() implies (#[trigger] deps_of(s0, w)[j] == root_id
                                    || seen.contains(deps_of(s0, w)[j])) by {
                                    if deps_of(s0, w)[j] != root_id {
                                        lemma_contains_after_push(seen_old, d, deps_of(s0, w)[j]);
                                    }
                                }
                                assert(seen.contains(v)) by {
                                    lemma_contains_after_push(seen_old, d, v);
                                }
                            }
                        } else {
                            proof {
                                assert forall|j: int| 0 <= j < dj + 1 implies (#[trigger] v_deps[
                                    j
                                ] == root_id || seen.contains(v_deps[j])) by {
                                    if j == dj && d != root_id {
                                        if in_visited {
                                            let w = choose|w: int|
                                                0 <= w < visited@.len() && visited@[w] == d;
                                            assert(seen[w] == d);
                                        } else {
                                            let w = choose|w: int|
                                                0 <= w < queue@.len() && queue@[w] == d;
                                            assert(seen[visited@.len() + w] == d);
                                        }
                                    }
                                }
                            }
                        }
                        dj = dj + 1;
                    }
                    proof {
                        assert forall|w: u64, j: int|
                            visited@.contains(w) && 0 <= j < deps_of(s0, w).len() implies (
                        #[trigger] deps_of(s0, w)[j] == root_id || seen.contains(
                            deps_of(s0, w)[j],
                        )) by {
                            if w == v {
                                assert(v_deps[j] == root_id || seen.contains(v_deps[j]));
                            }
                        }
                    }
                },
                None => {
                    visited.push(v);
                    proof {
                        assert(!has_id(s0, v)) by {
                            if has_id(s0, v) {
                                let w = idx_of(s0, v);
                                assert(0 <= w < s0.len() && s0[w].id == v);
                                assert(self.jobs@[w].id == v);
                                assert(has_id(self.jobs@, v));
                            }
                        }
                        assert(deps_of(s0, v).len() == 0);
                        assert(visited@ == visited_old.push(v));
                        assert(visited@ + queue@ =~= seen);
                        assert(!visited_old.contains(v)) by {
                            if visited_old.contains(v) {
                                let w = choose|w: int|
                                    0 <= w < visited_old.len() && visited_old[w] == v;
                                assert(seen[w] == v);
                                assert(seen[visited_old.len() as int] == v);
                            }
                        }
                        assert forall|ii: int| 0 <= ii < s0.len() implies {
                            let oj = #[trigger] s0[ii];
                            let nj = self.jobs@[ii];
                            nj.id == oj.id && nj.origin == oj.origin && nj.priority == oj.priority
                                && nj.deps == oj.deps && nj.status == oj.status && nj.stalled
                                == oj.stalled && nj.computed == if visited@.contains(oj.id) {
                                oj.computed.spec_combine(root_priority)
                            } else {
                                oj.computed
                            }
                        } by {
                            assert(s0[ii].id != v);
                            assert(visited@.contains(s0[ii].id) == visited_old.contains(
                                s0[ii].id,
                            )) by {
                                if visited@.contains(s0[ii].id) {
                                    let w = choose|w: int|
                                        0 <= w < visited@.len() && visited@[w] == s0[ii].id;
                                    if w < visited_old.len() {
                                        assert(visited_old[w] == s0[ii].id);
                                    }
                                } else if visited_old.contains(s0[ii].id) {
                                    let w = choose|w: int|
                                        0 <= w < visited_old.len() && visited_old[w] == s0[
                                        ii].id;
                                    assert(visited@[w] == s0[ii].id);
                                }
                            }
                        }
                        assert forall|w: u64, j: int|
                            visited@.contains(w) && 0 <= j < deps_of(s0, w).len() implies (
                        #[trigger] deps_of(s0, w)[j] == root_id || seen.contains(
                            deps_of(s0, w)[j],
                        )) by {
                            if w != v {
                                assert(visited_old.contains(w)) by {
                                    let ww = choose|ww: int|
                                        0 <= ww < visited@.len() && visited@[ww] == w;
                                    assert(ww < visited_old.len());
                                    assert(visited_old[ww] == w);
                                }
                            }
                        }
                    }
                },
            }
        }
        proof {
            assert(visited@ =~= seen);
            assert(visited@.no_duplicates());
            assert forall|x: u64| #[trigger] visited@.contains(x) == (reaches(s0, root_id, x) && x
                != root_id) by {
                if visited@.contains(x) {
                    let k = choose|k: int| 0 <= k < seen.len() && seen[k] == x;
                    assert(reaches(s0, root_id, seen[k]));
                    assert(seen[k] != root_id);
                } else {
                    if reaches(s0, root_id, x) && x != root_id {
                        let p = choose|p: Seq<u64>| is_dep_path(s0, root_id, p) && p.last() == x;
                        lemma_closure_complete(s0, root_id, visited@, p);
                    }
                }
            }
        }
        visited
    }
}

} // verus!
