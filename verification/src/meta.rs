//! The priority model: job urgency as a monoid under saturating addition,
//! with `Critical` as an absorbing top element.

use vstd::prelude::*;

verus! {

/// The priority level of a graphics job.
///
/// Jobs with [`Priority::NonCritical`] are executed in order of priority,
/// from highest weight to lowest, subject to the per-tick budget.
///
/// All jobs with [`Priority::Critical`] are executed during the current
/// tick, bypassing the budget entirely. Use this variant sparingly: it may
/// force the backend to block on otherwise-asynchronous resource
/// preparation.
///
/// Jobs propagate their priority to their dependencies additively, so jobs
/// with many dependents are prioritized.
#[derive(Copy, Clone, PartialEq, Eq, Structural, Hash, Debug)]
pub enum Priority {
    Critical,
    NonCritical(u32),
}

impl Priority {
    /// A well-formed priority: a non-critical weight is a positive integer.
    pub open spec fn wf(self) -> bool {
        match self {
            Priority::Critical => true,
            Priority::NonCritical(w) => w >= 1,
        }
    }

    /// The additive combination of two priorities: non-critical weights add
    /// with saturation at `u32::MAX`, and `Critical` absorbs everything.
    pub open spec fn spec_combine(self, rhs: Priority) -> Priority {
        match (self, rhs) {
            (Priority::NonCritical(a), Priority::NonCritical(b)) => Priority::NonCritical(
                if a + b > u32::MAX {
                    u32::MAX
                } else {
                    (a + b) as u32
                },
            ),
            _ => Priority::Critical,
        }
    }

    /// Adds two priorities: `NonCritical(a) + NonCritical(b)` is
    /// `NonCritical(a + b)` saturating at the maximum representable weight,
    /// and any combination involving `Critical` yields `Critical`.
    pub fn combine(self, rhs: Priority) -> (r: Priority)
        ensures
            r == self.spec_combine(rhs),
    {
        match (self, rhs) {
            (Priority::NonCritical(a), Priority::NonCritical(b)) => Priority::NonCritical(
                a.saturating_add(b),
            ),
            _ => Priority::Critical,
        }
    }

    /// The total order on priorities: `Critical` is above every
    /// `NonCritical`, and non-critical weights order numerically.
    pub open spec fn spec_le(self, rhs: Priority) -> bool {
        match (self, rhs) {
            (Priority::Critical, Priority::Critical) => true,
            (Priority::Critical, Priority::NonCritical(_)) => false,
            (Priority::NonCritical(_), Priority::Critical) => true,
            (Priority::NonCritical(a), Priority::NonCritical(b)) => a <= b,
        }
    }

    /// Compares two priorities under the scheduling order.
    pub fn le(self, rhs: Priority) -> (r: bool)
        ensures
            r == self.spec_le(rhs),
    {
        match (self, rhs) {
            (Priority::Critical, Priority::Critical) => true,
            (Priority::Critical, Priority::NonCritical(_)) => false,
            (Priority::NonCritical(_), Priority::Critical) => true,
            (Priority::NonCritical(a), Priority::NonCritical(b)) => a <= b,
        }
    }

    /// Whether this priority is the critical level.
    pub open spec fn spec_is_critical(self) -> bool {
        self is Critical
    }

    /// Returns true exactly when this priority is `Critical`.
    pub fn is_critical(&self) -> (r: bool)
        ensures
            r == self.spec_is_critical(),
    {
        matches!(self, Priority::Critical)
    }
}

impl Default for Priority {
    /// The default priority is the lowest non-critical weight.
    fn default() -> (p: Self)
        ensures
            p == Priority::NonCritical(1u32),
    {
        Priority::NonCritical(1)
    }
}

/// Combining priorities is commutative.
pub proof fn lemma_combine_commutative(a: Priority, b: Priority)
    ensures
        a.spec_combine(b) == b.spec_combine(a),
{
}

/// Combining priorities is associative, so summing a sequence of priorities
/// is insensitive to grouping.
pub proof fn lemma_combine_associative(a: Priority, b: Priority, c: Priority)
    ensures
        a.spec_combine(b).spec_combine(c) == a.spec_combine(b.spec_combine(c)),
{
}

/// Combination preserves well-formedness, and a sum of non-critical
/// priorities saturates at the maximum representable weight instead of
/// overflowing.
pub proof fn lemma_combine_wf(a: Priority, b: Priority)
    requires
        a.wf(),
        b.wf(),
    ensures
        a.spec_combine(b).wf(),
        (a is NonCritical && b is NonCritical) ==> a.spec_combine(b) == Priority::NonCritical(
            if a->NonCritical_0 + b->NonCritical_0 > u32::MAX {
                u32::MAX
            } else {
                (a->NonCritical_0 + b->NonCritical_0) as u32
            },
        ),
{
}

/// The scheduling order is reflexive.
pub proof fn lemma_le_refl(a: Priority)
    ensures
        a.spec_le(a),
{
}

/// The scheduling order is total: any two priorities compare.
pub proof fn lemma_le_total(a: Priority, b: Priority)
    ensures
        a.spec_le(b) || b.spec_le(a),
{
}

/// The scheduling order is transitive.
pub proof fn lemma_le_trans(a: Priority, b: Priority, c: Priority)
    requires
        a.spec_le(b),
        b.spec_le(c),
    ensures
        a.spec_le(c),
{
}

/// The sum of a non-empty sequence of priorities under `spec_combine`,
/// folded from the left as an iterated reduction would compute it.
pub open spec fn sum_priorities(s: Seq<Priority>) -> Priority
    recommends
        s.len() >= 1,
    decreases s.len(),
{
    if s.len() <= 1 {
        s[0]
    } else {
        sum_priorities(s.drop_last()).spec_combine(s.last())
    }
}

/// Whether every priority in the sequence is non-critical.
pub open spec fn all_non_critical(s: Seq<Priority>) -> bool {
    forall|i: int| 0 <= i < s.len() ==> (#[trigger] s[i]) is NonCritical
}

/// The exact mathematical total of a sequence of non-critical weights.
pub open spec fn weight_sum(s: Seq<Priority>) -> int
    decreases s.len(),
{
    if s.len() == 0 {
        0int
    } else {
        weight_sum(s.drop_last()) + s.last()->NonCritical_0
    }
}

/// Saturation over whole sequences: the sum of any non-empty sequence of
/// non-critical priorities is non-critical, carrying the exact total of
/// the weights where that total is representable and the maximum
/// representable weight where it is not — it never overflows.
pub proof fn lemma_sum_saturates(s: Seq<Priority>)
    requires
        s.len() >= 1,
        all_non_critical(s),
    ensures
        weight_sum(s) >= 0,
        sum_priorities(s) == Priority::NonCritical(
            if weight_sum(s) > u32::MAX {
                u32::MAX
            } else {
                weight_sum(s) as u32
            },
        ),
    decreases s.len(),
{
    if s.len() == 1 {
        assert(weight_sum(s.drop_last()) == 0);
        assert(s.last() == s[0]);
    } else {
        assert(all_non_critical(s.drop_last())) by {
            assert(forall|i: int|
                0 <= i < s.drop_last().len() ==> #[trigger] s.drop_last()[i] == s[i]);
        }
        lemma_sum_saturates(s.drop_last());
    }
}

/// Sums split over concatenation: summing a sequence in two halves and
/// combining the partial sums gives the sum of the whole — the sequence
/// sum is insensitive to grouping.
pub proof fn lemma_sum_append(a: Seq<Priority>, b: Seq<Priority>)
    requires
        a.len() >= 1,
        b.len() >= 1,
    ensures
        sum_priorities(a + b) == sum_priorities(a).spec_combine(sum_priorities(b)),
    decreases b.len(),
{
    if b.len() == 1 {
        assert((a + b).drop_last() =~= a);
        assert((a + b).last() == b[0]);
        assert(sum_priorities(b) == b[0]);
    } else {
        assert((a + b).drop_last() =~= a + b.drop_last());
        assert((a + b).last() == b.last());
        lemma_sum_append(a, b.drop_last());
        lemma_combine_associative(sum_priorities(a), sum_priorities(b.drop_last()), b.last());
    }
}

/// Absorption: the sum of any non-empty sequence of priorities that contains
/// at least one `Critical` is `Critical`, regardless of where the critical
/// element stands or how many elements there are.
pub proof fn lemma_sum_critical_absorbs(s: Seq<Priority>, i: int)
    requires
        0 <= i < s.len(),
        s[i] is Critical,
    ensures
        sum_priorities(s) is Critical,
    decreases s.len(),
{
    if s.len() > 1 {
        if i < s.len() - 1 {
            lemma_sum_critical_absorbs(s.drop_last(), i);
        }
    }
}

/// A generic marker carried by all graphics jobs; the presence of this
/// marker is what admits an entity into the scheduler's bookkeeping.
#[derive(Copy, Clone, PartialEq, Eq, Structural, Debug, Default)]
pub struct JobMarker;

/// Sets the execution priority for a scheduled job.
#[derive(Copy, Clone, PartialEq, Eq, Structural, Hash, Debug)]
pub struct JobPriority(pub Priority);

impl JobPriority {
    /// The critical priority: the job must run this tick.
    pub fn critical() -> (p: Self)
        ensures
            p.0 == Priority::Critical,
    {
        Self(Priority::Critical)
    }

    /// A non-critical priority of the given weight, which must be positive.
    pub fn non_critical(weight: u32) -> (p: Self)
        requires
            weight > 0,
        ensures
            p.0 == Priority::NonCritical(weight),
            p.0.wf(),
    {
        Self(Priority::NonCritical(weight))
    }

    /// Returns true exactly when this job's priority is `Critical`.
    pub fn is_critical(&self) -> (r: bool)
        ensures
            r == self.0.spec_is_critical(),
    {
        self.0.is_critical()
    }
}

impl Default for JobPriority {
    /// The default job priority is the lowest non-critical weight.
    fn default() -> (p: Self)
        ensures
            p.0 == Priority::NonCritical(1u32),
    {
        Self(Priority::NonCritical(1))
    }
}

} // verus!
