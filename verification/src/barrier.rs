//! The counting core of a reusable cyclic thread barrier: the state that the
//! waiting protocol updates under a lock. The blocking loop around it, with
//! its mutex and condition variable, lives with the caller; these methods
//! are the decisions it takes at each step.

use vstd::prelude::*;

verus! {

/// Which phase the barrier is in: gathering waiters, or releasing them.
#[derive(Clone, Copy, Debug, PartialEq, Eq, Structural)]
pub enum BarrierState {
    Receiving,
    Releasing,
}

/// The barrier's counter: `original` is the party count; `count` descends
/// from `original` as threads queue and climbs back as they leave.
#[derive(Clone, Copy, Debug, PartialEq, Eq, Structural)]
pub struct BarrierCount {
    pub original: usize,
    pub count: usize,
    pub state: BarrierState,
}

impl BarrierCount {
    /// The counter stays within the party count.
    pub open spec fn wf(self) -> bool {
        self.count <= self.original
    }

    /// A fresh barrier for `nthreads` parties, gathering.
    pub fn new(nthreads: usize) -> (r: BarrierCount)
        ensures
            r.wf(),
            r.original == nthreads,
            r.count == nthreads,
            r.state == BarrierState::Receiving,
    {
        BarrierCount { original: nthreads, count: nthreads, state: BarrierState::Receiving }
    }

    /// The arrival rank of the thread now at the barrier: 1 for the first
    /// arrival, up to the party count for the last.
    pub fn rank(&self) -> (r: usize)
        requires
            self.wf(),
            self.count >= 1,
        ensures
            r == self.original - self.count + 1,
    {
        self.original - self.count + 1
    }

    /// One more thread queues: the counter descends.
    pub fn queue(&mut self)
        requires
            old(self).count >= 1,
        ensures
            final(self).count == old(self).count - 1,
            final(self).original == old(self).original,
            final(self).state == old(self).state,
    {
        self.count = self.count - 1;
    }

    /// One thread leaves the barrier: the counter climbs back.
    pub fn dequeue(&mut self)
        requires
            old(self).count < old(self).original,
        ensures
            final(self).count == old(self).count + 1,
            final(self).original == old(self).original,
            final(self).state == old(self).state,
    {
        self.count = self.count + 1;
    }

    /// Whether every thread has left: the counter is back at the party
    /// count.
    pub fn queue_empty(&self) -> (r: bool)
        ensures
            r == (self.count == self.original),
    {
        self.count == self.original
    }

    /// Whether every party has queued: the counter reached zero.
    pub fn queue_full(&self) -> (r: bool)
        ensures
            r == (self.count == 0),
    {
        self.count == 0
    }

    /// Whether the thread now queuing is the last party awaited.
    pub fn last_thread(&self) -> (r: bool)
        ensures
            r == (self.count == 1),
    {
        self.count == 1
    }

    /// Open the barrier: waiters are to be released.
    pub fn release(&mut self)
        ensures
            final(self).state == BarrierState::Releasing,
            final(self).count == old(self).count,
            final(self).original == old(self).original,
    {
        self.state = BarrierState::Releasing;
    }

    /// Close the barrier again for the next cycle.
    pub fn reset(&mut self)
        ensures
            final(self).state == BarrierState::Receiving,
            final(self).count == old(self).count,
            final(self).original == old(self).original,
    {
        self.state = BarrierState::Receiving;
    }

    /// Whether a wakeup while still gathering is spurious: waiters must keep
    /// sleeping.
    pub fn spourious(&self) -> (r: bool)
        ensures
            r == (self.state == BarrierState::Receiving),
    {
        match self.state {
            BarrierState::Receiving => true,
            BarrierState::Releasing => false,
        }
    }

    /// Whether the barrier is releasing its waiters.
    pub fn releasing(&self) -> (r: bool)
        ensures
            r == (self.state == BarrierState::Releasing),
    {
        match self.state {
            BarrierState::Receiving => false,
            BarrierState::Releasing => true,
        }
    }
}

} // verus!
