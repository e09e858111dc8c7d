//! The completion router: job outcomes travel from the execution context
//! back to the originating context over two unidirectional FIFO channels,
//! and every outcome is delivered exactly once.

use vstd::prelude::*;

use crate::JobComplete;
use crate::JobError;

verus! {

/// The outcome of one job, tagged with the identifiers needed to route it:
/// the job's identifier in the execution context and, when the job was
/// submitted from another context, its mirror identifier there.
#[derive(Copy, Clone, PartialEq, Eq, Debug)]
pub struct JobResult {
    /// The job's identifier in the execution context.
    pub id: u64,
    /// The job's mirror identifier in the originating context, when the
    /// originating context tracks it.
    pub origin: Option<u64>,
    /// Success, or how the job failed.
    pub result: Result<(), JobError>,
}

/// One unidirectional, non-blocking FIFO queue of job results. Both
/// endpoints are owned here and never cloned, so the channel cannot
/// disconnect and a send never fails.
#[verifier::external_body]
pub struct ResultChannel {
    sender: crossbeam_channel::Sender<JobResult>,
    receiver: crossbeam_channel::Receiver<JobResult>,
}

/// The messages currently queued in a channel, oldest first.
pub uninterp spec fn channel_queue(c: ResultChannel) -> Seq<JobResult>;

/// Relies on crossbeam_channel::unbounded: a freshly created channel of
/// unbounded capacity holds no messages.
#[verifier::external_body]
fn channel_new() -> (c: ResultChannel)
    ensures
        channel_queue(c) == Seq::<JobResult>::empty(),
{
    let (sender, receiver) = crossbeam_channel::unbounded();
    ResultChannel { sender, receiver }
}

/// Relies on crossbeam_channel::Sender::send: on an unbounded channel whose
/// receiver is alive (both endpoints live in this struct), the send always
/// succeeds and appends the message behind those already queued.
#[verifier::external_body]
fn channel_send(c: &mut ResultChannel, r: JobResult)
    ensures
        channel_queue(*final(c)) == channel_queue(*old(c)).push(r),
{
    c.sender.send(r).unwrap();
}

/// Relies on crossbeam_channel::Receiver::try_recv: without blocking, it
/// takes the oldest queued message, or reports that the channel is empty.
/// The sender is alive (both endpoints live in this struct), so the
/// disconnected error cannot occur.
#[verifier::external_body]
fn channel_try_recv(c: &mut ResultChannel) -> (r: Option<JobResult>)
    ensures
        channel_queue(*old(c)).len() == 0 ==> r is None && channel_queue(*final(c))
            == channel_queue(*old(c)),
        channel_queue(*old(c)).len() > 0 ==> r == Some(channel_queue(*old(c))[0])
            && channel_queue(*final(c)) == channel_queue(*old(c)).drop_first(),
{
    match c.receiver.try_recv() {
        Ok(r) => Some(r),
        Err(_) => None,
    }
}

/// A completion notification addressed to one identifier: the observable
/// "job complete" event raised in whichever context the delivery happens.
#[derive(Copy, Clone, PartialEq, Eq, Debug)]
pub struct Delivery {
    /// The identifier the event is addressed to, in the delivering context.
    pub target: u64,
    /// The event itself.
    pub event: JobComplete,
}

/// The two-hop bridge between the execution context and the originating
/// context: jobs finish in the execution context, which has no direct
/// access to the originating context's state, so each outcome first
/// crosses the worker channel, is observed and re-sent on the bridge
/// channel, and is finally observed in the originating context.
pub struct CompletionRouter {
    /// Carries outcomes out of the execution context as jobs complete.
    worker: ResultChannel,
    /// Re-delivers the same outcomes into the originating context.
    bridge: ResultChannel,
}

impl CompletionRouter {
    /// The outcomes queued on the worker channel, oldest first.
    pub closed spec fn worker_queue(self) -> Seq<JobResult> {
        channel_queue(self.worker)
    }

    /// The outcomes queued on the bridge channel, oldest first.
    pub closed spec fn bridge_queue(self) -> Seq<JobResult> {
        channel_queue(self.bridge)
    }

    /// Creates a router with both channels empty.
    pub fn new() -> (r: Self)
        ensures
            r.worker_queue() == Seq::<JobResult>::empty(),
            r.bridge_queue() == Seq::<JobResult>::empty(),
    {
        CompletionRouter { worker: channel_new(), bridge: channel_new() }
    }

    /// Reports one job outcome from the execution context: the outcome is
    /// queued on the worker channel behind earlier outcomes and nothing
    /// else changes.
    pub fn report(&mut self, r: JobResult)
        ensures
            final(self).worker_queue() == old(self).worker_queue().push(r),
            final(self).bridge_queue() == old(self).bridge_queue(),
    {
        channel_send(&mut self.worker, r);
    }

    /// The deliveries the execution context observes for a batch of
    /// outcomes: one event per outcome, addressed to the job's identifier
    /// in that context, in arrival order.
    pub open spec fn spec_worker_deliveries(outcomes: Seq<JobResult>) -> Seq<Delivery> {
        outcomes.map_values(
            |r: JobResult| Delivery { target: r.id, event: JobComplete(r.result) },
        )
    }

    /// The deliveries the originating context observes for a batch of
    /// outcomes: one event per outcome that carries a mirror identifier,
    /// addressed to that identifier, in arrival order.
    pub open spec fn spec_origin_deliveries(outcomes: Seq<JobResult>) -> Seq<Delivery> {
        outcomes.filter(|r: JobResult| r.origin is Some).map_values(
            |r: JobResult| Delivery { target: r.origin->0, event: JobComplete(r.result) },
        )
    }

    /// Drains the worker channel in the execution context: every queued
    /// outcome is forwarded to the bridge channel in order, none is
    /// dropped, and one completion event per outcome is delivered at the
    /// job's identifier in the execution context. The caller removes the
    /// bookkeeping for each returned target.
    pub fn sync_completed_jobs(&mut self) -> (deliveries: Vec<Delivery>)
        ensures
            final(self).worker_queue() == Seq::<JobResult>::empty(),
            final(self).bridge_queue() == old(self).bridge_queue() + old(self).worker_queue(),
            deliveries@ == Self::spec_worker_deliveries(old(self).worker_queue()),
    {
        let mut deliveries: Vec<Delivery> = Vec::new();
        let ghost drained: Seq<JobResult> = Seq::empty();
        loop
            invariant
                old(self).worker_queue() == drained + self.worker_queue(),
                self.bridge_queue() == old(self).bridge_queue() + drained,
                deliveries@ == Self::spec_worker_deliveries(drained),
            ensures
                self.worker_queue().len() == 0,
                self.bridge_queue() == old(self).bridge_queue() + drained,
                old(self).worker_queue() == drained,
                deliveries@ == Self::spec_worker_deliveries(drained),
            decreases self.worker_queue().len(),
        {
            let next = channel_try_recv(&mut self.worker);
            match next {
                None => {
                    proof {
                        assert(old(self).worker_queue() =~= drained);
                    }
                    break ;
                },
                Some(r) => {
                    channel_send(&mut self.bridge, r);
                    deliveries.push(Delivery { target: r.id, event: JobComplete(r.result) });
                    proof {
                        drained = drained.push(r);
                        assert(old(self).worker_queue() =~= drained + self.worker_queue());
                        assert(self.bridge_queue() =~= old(self).bridge_queue() + drained);
                        assert(deliveries@ =~= Self::spec_worker_deliveries(drained));
                    }
                },
            }
        }
        deliveries
    }

    /// Drains the bridge channel in the originating context: every queued
    /// outcome that carries a mirror identifier is delivered as one
    /// completion event at that identifier, in order; outcomes without a
    /// mirror identifier have no observer there and produce no event. The
    /// caller removes the bookkeeping for each returned target.
    pub fn sync_completed_jobs_main_world(&mut self) -> (deliveries: Vec<Delivery>)
        ensures
            final(self).bridge_queue() == Seq::<JobResult>::empty(),
            final(self).worker_queue() == old(self).worker_queue(),
            deliveries@ == Self::spec_origin_deliveries(old(self).bridge_queue()),
    {
        let mut deliveries: Vec<Delivery> = Vec::new();
        let ghost drained: Seq<JobResult> = Seq::empty();
        loop
            invariant
                old(self).bridge_queue() == drained + self.bridge_queue(),
                self.worker_queue() == old(self).worker_queue(),
                deliveries@ == Self::spec_origin_deliveries(drained),
            ensures
                self.bridge_queue().len() == 0,
                old(self).bridge_queue() == drained,
                self.worker_queue() == old(self).worker_queue(),
                deliveries@ == Self::spec_origin_deliveries(drained),
            decreases self.bridge_queue().len(),
        {
            let next = channel_try_recv(&mut self.bridge);
            match next {
                None => {
                    proof {
                        assert(old(self).bridge_queue() =~= drained);
                    }
                    break ;
                },
                Some(r) => {
                    match r.origin {
                        Some(target) => {
                            deliveries.push(Delivery { target, event: JobComplete(r.result) });
                        },
                        None => {},
                    }
                    proof {
                        let prev = drained;
                        drained = drained.push(r);
                        assert(old(self).bridge_queue() =~= drained + self.bridge_queue());
                        reveal(Seq::filter);
                        assert(drained.drop_last() =~= prev);
                        assert(deliveries@ =~= Self::spec_origin_deliveries(drained));
                    }
                },
            }
        }
        deliveries
    }
}

} // verus!
