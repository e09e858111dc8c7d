//! The readiness protocol: a job's declared inputs are polled each tick, and
//! composite inputs combine their sub-results with `Fail` dominating and
//! `Ready` only when every part is ready.

use vstd::prelude::*;

verus! {

/// The result of polling one of a job's declared inputs for availability.
#[derive(Copy, Clone, PartialEq, Eq, Structural, Debug)]
pub enum JobInputReady {
    /// The input is prepared and the job may consume it.
    Ready,
    /// The input is not prepared yet; poll again next tick.
    Wait,
    /// The input can never be satisfied; the job must fail.
    Fail,
}

impl JobInputReady {
    /// How two sub-results of a composite input merge: `Fail` dominates,
    /// the result is `Ready` only when both are, and otherwise `Wait`.
    pub open spec fn spec_combine(self, rhs: JobInputReady) -> JobInputReady {
        if self is Fail || rhs is Fail {
            JobInputReady::Fail
        } else if self is Ready && rhs is Ready {
            JobInputReady::Ready
        } else {
            JobInputReady::Wait
        }
    }

    /// Merges the readiness of two parts of a composite input.
    pub fn combine(self, rhs: Self) -> (r: Self)
        ensures
            r == self.spec_combine(rhs),
    {
        match (self, rhs) {
            (JobInputReady::Fail, _) | (_, JobInputReady::Fail) => JobInputReady::Fail,
            (JobInputReady::Ready, JobInputReady::Ready) => JobInputReady::Ready,
            _ => JobInputReady::Wait,
        }
    }
}

/// The merged readiness of a whole list of sub-results, starting from
/// `Ready` (an input with no parts is trivially ready).
pub open spec fn spec_combine_all(s: Seq<JobInputReady>) -> JobInputReady
    decreases s.len(),
{
    if s.len() == 0 {
        JobInputReady::Ready
    } else {
        spec_combine_all(s.drop_last()).spec_combine(s.last())
    }
}

/// Merges the readiness results of all parts of a composite input:
/// the whole input fails if any part fails, is ready only when every part
/// is ready, and otherwise waits.
pub fn combine_all(parts: &Vec<JobInputReady>) -> (r: JobInputReady)
    ensures
        r == spec_combine_all(parts@),
        (r is Fail) == (exists|i: int| 0 <= i < parts@.len() && parts@[i] is Fail),
        (r is Ready) == (forall|i: int| 0 <= i < parts@.len() ==> parts@[i] is Ready),
{
    let mut acc = JobInputReady::Ready;
    let mut k: usize = 0;
    while k < parts.len()
        invariant
            k <= parts@.len(),
            acc == spec_combine_all(parts@.take(k as int)),
        decreases parts@.len() - k,
    {
        proof {
            assert(parts@.take(k + 1).drop_last() =~= parts@.take(k as int));
        }
        acc = acc.combine(parts[k]);
        k = k + 1;
    }
    proof {
        assert(parts@.take(parts@.len() as int) =~= parts@);
        lemma_combine_all_cases(parts@);
    }
    acc
}

/// Characterizes the fold over a whole sequence of readiness results:
/// the merged result fails exactly when some part fails, and is ready
/// exactly when every part is ready.
pub proof fn lemma_combine_all_cases(s: Seq<JobInputReady>)
    ensures
        (spec_combine_all(s) is Fail) == (exists|i: int| 0 <= i < s.len() && s[i] is Fail),
        (spec_combine_all(s) is Ready) == (forall|i: int| 0 <= i < s.len() ==> s[i] is Ready),
    decreases s.len(),
{
    if s.len() > 0 {
        lemma_combine_all_cases(s.drop_last());
        if spec_combine_all(s) is Fail {
            if s.last() is Fail {
                assert(s[s.len() - 1] is Fail);
            } else {
                let i = choose|i: int| 0 <= i < s.len() - 1 && s.drop_last()[i] is Fail;
                assert(s[i] is Fail);
            }
        }
        if exists|i: int| 0 <= i < s.len() && s[i] is Fail {
            let i = choose|i: int| 0 <= i < s.len() && s[i] is Fail;
            if i < s.len() - 1 {
                assert(s.drop_last()[i] is Fail);
            }
        }
        assert(forall|i: int| 0 <= i < s.len() - 1 ==> s[i] == s.drop_last()[i]);
    }
}

} // verus!
