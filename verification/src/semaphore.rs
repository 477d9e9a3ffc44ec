//! The counter discipline of a counting semaphore. The concurrent original
//! guards the counter with a mutex and parks waiters on a condition variable;
//! here the state machine of that counter is modelled sequentially, with the
//! blocking wait turned into a precondition.
use vstd::prelude::*;

verus! {

/// A counting semaphore that admits at most `max` holders at a time.
pub struct Semaphore {
    /// Number of callers currently admitted.
    pub cnt: isize,
    /// The bound on simultaneous holders.
    pub max: isize,
}

impl Semaphore {
    /// A fresh semaphore admitting up to `max` holders, none inside yet.
    pub fn new(max: isize) -> (s: Semaphore)
        ensures
            s.cnt == 0,
            s.max == max,
    {
        Semaphore { cnt: 0, max }
    }

    /// Take a slot. The concurrent original waits on a condition variable
    /// while `cnt` has reached `max`; sequentially that wait is the
    /// precondition.
    pub fn wait(&mut self)
        requires
            old(self).cnt < old(self).max,
        ensures
            final(self).cnt == old(self).cnt + 1,
            final(self).max == old(self).max,
    {
        self.cnt = self.cnt + 1;
    }

    /// Give the slot back, making room for one waiter.
    pub fn post(&mut self)
        requires
            old(self).cnt > isize::MIN,
        ensures
            final(self).cnt == old(self).cnt - 1,
            final(self).max == old(self).max,
    {
        self.cnt = self.cnt - 1;
    }
}

} // verus!
