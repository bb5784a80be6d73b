//! Bookkeeping of a thread pool: how many submitted jobs have not finished.
//! The threads, the channel and the waiting live with the caller, which asks
//! these functions what to do.

use vstd::prelude::*;

verus! {

/// Number of jobs that were submitted and have not finished yet.
#[derive(Debug)]
pub struct JobCount {
    count: usize,
}

impl View for JobCount {
    type V = nat;

    closed spec fn view(&self) -> nat {
        self.count as nat
    }
}

impl JobCount {
    pub fn new() -> (r: Self)
        ensures
            r@ == 0,
    {
        JobCount { count: 0 }
    }

    /// Increment the job count.
    pub fn start_job(&mut self)
        requires
            old(self)@ < usize::MAX,
        ensures
            final(self)@ == old(self)@ + 1,
    {
        self.count = self.count + 1;
    }

    /// Decrement the job count. Returns whether it reached zero, in which
    /// case a waiter is to be woken.
    pub fn finish_job(&mut self) -> (wake: bool)
        requires
            old(self)@ > 0,
        ensures
            final(self)@ == old(self)@ - 1,
            wake == (final(self)@ == 0),
    {
        self.count = self.count - 1;
        self.count == 0
    }

    /// Whether no job is pending, so that a wait for all jobs is over.
    pub fn is_empty(&self) -> (r: bool)
        ensures
            r == (self@ == 0),
    {
        self.count == 0
    }

    /// The number of pending jobs.
    pub fn pending(&self) -> (r: usize)
        ensures
            r == self@,
    {
        self.count
    }
}

} // verus!
