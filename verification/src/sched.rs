//! Scheduler state: the work queue of discovered directory pairs and the
//! bounded set of in-flight processor invocations.
//!
//! The driver loop dispatches a task only when a concurrency slot is free,
//! and reports each completion together with the subdirectories it
//! discovered, which go back onto the queue. Every operation preserves
//! well-formedness, so the number of in-flight invocations never exceeds the
//! configured limit.

use vstd::prelude::*;

verus! {

/// A unit of scheduled work: a source directory paired with its mapped
/// destination directory. Never mutated after creation.
pub struct DirectoryTask {
    pub source: Vec<String>,
    pub dest: Vec<String>,
}

/// Immutable configuration of a run.
pub struct Config {
    pub delete_source: bool,
    pub concurrency: usize,
}

impl Config {
    /// The concurrency limit is a positive integer.
    pub open spec fn wf(self) -> bool {
        self.concurrency >= 1
    }

    pub fn new(delete_source: bool, concurrency: usize) -> (c: Config)
        requires
            concurrency >= 1,
        ensures
            c.wf(),
            c.delete_source == delete_source,
            c.concurrency == concurrency,
    {
        Config { delete_source, concurrency }
    }
}

/// The scheduler's mutable state: pending tasks and the count of running
/// processor invocations, bounded by the limit.
pub struct Scheduler {
    pub queue: Vec<DirectoryTask>,
    pub in_flight: usize,
    pub limit: usize,
}

impl Scheduler {
    /// The in-flight count never exceeds the positive limit.
    pub open spec fn wf(self) -> bool {
        self.in_flight <= self.limit && self.limit >= 1
    }

    /// The run is complete: nothing queued, nothing running.
    pub open spec fn is_done(self) -> bool {
        self.queue@.len() == 0 && self.in_flight == 0
    }

    pub fn new(limit: usize) -> (s: Scheduler)
        requires
            limit >= 1,
        ensures
            s.wf(),
            s.queue@ =~= Seq::<DirectoryTask>::empty(),
            s.in_flight == 0,
            s.limit == limit,
    {
        Scheduler { queue: Vec::new(), in_flight: 0, limit }
    }

    /// Append a newly discovered task to the queue.
    pub fn enqueue(&mut self, t: DirectoryTask)
        ensures
            final(self).queue@ == old(self).queue@.push(t),
            final(self).in_flight == old(self).in_flight,
            final(self).limit == old(self).limit,
            old(self).wf() ==> final(self).wf(),
    {
        self.queue.push(t);
    }

    /// A task may start now: a concurrency slot is free and work is queued.
    pub fn can_dispatch(&self) -> (r: bool)
        ensures
            r == (self.in_flight < self.limit && self.queue@.len() > 0),
    {
        self.in_flight < self.limit && self.queue.len() > 0
    }

    /// Take the most recently queued task and account for it as in-flight.
    pub fn dispatch(&mut self) -> (t: DirectoryTask)
        requires
            old(self).wf(),
            old(self).in_flight < old(self).limit,
            old(self).queue@.len() > 0,
        ensures
            final(self).wf(),
            t == old(self).queue@.last(),
            final(self).queue@ == old(self).queue@.drop_last(),
            final(self).in_flight == old(self).in_flight + 1,
            final(self).limit == old(self).limit,
    {
        self.in_flight = self.in_flight + 1;
        self.queue.pop().unwrap()
    }

    /// Record the completion of one invocation and merge the subdirectories
    /// it discovered into the queue.
    pub fn complete(&mut self, discovered: Vec<DirectoryTask>)
        requires
            old(self).wf(),
            old(self).in_flight >= 1,
        ensures
            final(self).wf(),
            final(self).queue@ == old(self).queue@ + discovered@,
            final(self).in_flight == old(self).in_flight - 1,
            final(self).limit == old(self).limit,
    {
        self.in_flight = self.in_flight - 1;
        let mut rest = discovered;
        let ghost all = rest@;
        while rest.len() > 0
            invariant
                self.queue@ + rest@ =~= old(self).queue@ + all,
                self.in_flight == old(self).in_flight - 1,
                self.limit == old(self).limit,
            decreases rest.len(),
        {
            let t = rest.remove(0);
            self.queue.push(t);
        }
        proof {
            assert(self.queue@ =~= self.queue@ + rest@);
            assert(self.queue@ =~= old(self).queue@ + all);
        }
    }

    /// Whether the whole run is finished.
    pub fn done(&self) -> (r: bool)
        ensures
            r == self.is_done(),
    {
        self.queue.len() == 0 && self.in_flight == 0
    }
}

/// The concurrency bound itself: in any well-formed scheduler state the
/// number of concurrently active directory invocations is at most the
/// configured limit. Every scheduler operation returns a well-formed state,
/// so the bound holds at every point of a run.
pub proof fn lemma_in_flight_bounded(s: Scheduler)
    requires
        s.wf(),
    ensures
        s.in_flight <= s.limit,
{
}

} // verus!
