//! The state machine of a bounded fair lock: up to `NUM_LOCK` acquirers, each
//! with a fixed slot, announce themselves in a waiting table; a releaser
//! either hands the lock directly to the waiter after the current turn or
//! frees it. The concurrent original spins on the table and a flag; here the
//! spin becomes a precondition and the guard drop an explicit release that
//! consumes the guard.
use vstd::prelude::*;

verus! {

/// Number of acquirer slots.
pub const NUM_LOCK: usize = 8;

/// A fair lock around a value.
pub struct FairLock<T> {
    /// One flag per slot: set while that slot wants or holds the lock.
    pub waiting: Vec<bool>,
    /// Whether some slot holds the lock.
    pub locked: bool,
    /// The slot favoured by the hand-over rule.
    pub turn: usize,
    /// The protected value.
    pub data: T,
}

/// Witness that slot `idx` holds the lock.
pub struct FairLockGuard {
    /// The holder's slot.
    pub idx: usize,
}

/// The slot a releaser at `turn` offers the lock to first when the releasing
/// slot is `idx`.
pub open spec fn next_candidate(turn: int, idx: int) -> int {
    if turn == idx {
        (turn + 1) % (NUM_LOCK as int)
    } else {
        turn
    }
}

impl<T> FairLock<T> {
    /// The waiting table has one slot per acquirer and the turn points at a
    /// slot.
    pub open spec fn wf(self) -> bool {
        &&& self.waiting@.len() == NUM_LOCK
        &&& self.turn < NUM_LOCK
    }

    /// A fresh, unlocked lock around `v`, nobody waiting.
    pub fn new(v: T) -> (l: FairLock<T>)
        ensures
            l.wf(),
            !l.locked,
            l.turn == 0,
            l.data == v,
            forall|i: int| 0 <= i < NUM_LOCK ==> !l.waiting@[i],
    {
        let mut waiting: Vec<bool> = Vec::new();
        let mut i: usize = 0;
        while i < NUM_LOCK
            invariant
                i <= NUM_LOCK,
                waiting@.len() == i,
                forall|k: int| 0 <= k < i ==> !waiting@[k],
            decreases NUM_LOCK - i,
        {
            waiting.push(false);
            i += 1;
        }
        FairLock { waiting, locked: false, turn: 0, data: v }
    }

    /// Acquire for slot `idx`: announce the slot, then take the lock. The
    /// concurrent original spins until its flag is cleared by a hand-over or
    /// its compare-and-set wins; sequentially the lock must be free, else
    /// that spin would never end.
    pub fn lock(&mut self, idx: usize) -> (g: FairLockGuard)
        requires
            old(self).wf(),
            idx < NUM_LOCK,
            !old(self).locked,
        ensures
            final(self).wf(),
            g.idx == idx,
            final(self).locked,
            final(self).waiting@ == old(self).waiting@.update(idx as int, true),
            final(self).turn == old(self).turn,
            final(self).data == old(self).data,
    {
        self.waiting[idx] = true;
        // The original spins here; with the lock free its compare-and-set
        // succeeds at once.
        self.locked = true;
        FairLockGuard { idx }
    }

    /// Read the protected value while holding the lock.
    pub fn read(&self, g: &FairLockGuard) -> (r: &T)
        requires
            self.locked,
        ensures
            *r == self.data,
    {
        let _ = g;
        &self.data
    }

    /// Replace the protected value while holding the lock.
    pub fn write(&mut self, g: &FairLockGuard, v: T)
        requires
            old(self).locked,
        ensures
            final(self).data == v,
            final(self).waiting@ == old(self).waiting@,
            final(self).locked == old(self).locked,
            final(self).turn == old(self).turn,
    {
        let _ = g;
        self.data = v;
    }

    /// Release from slot `g.idx`: clear the releaser's flag, then either hand
    /// the lock straight to the candidate slot, clearing its flag so its spin
    /// ends, or advance the turn past the candidate and free the lock. This
    /// stands for the guard drop of the concurrent original.
    pub fn unlock(&mut self, g: FairLockGuard)
        requires
            old(self).wf(),
            old(self).locked,
            g.idx < NUM_LOCK,
        ensures
            final(self).wf(),
            final(self).data == old(self).data,
            ({
                let w1 = old(self).waiting@.update(g.idx as int, false);
                let nx = next_candidate(old(self).turn as int, g.idx as int);
                if w1[nx] {
                    &&& final(self).waiting@ == w1.update(nx, false)
                    &&& final(self).turn == nx
                    &&& final(self).locked
                } else {
                    &&& final(self).waiting@ == w1
                    &&& final(self).turn == (nx + 1) % (NUM_LOCK as int)
                    &&& !final(self).locked
                }
            }),
    {
        let idx = g.idx;
        self.waiting[idx] = false;
        let turn = self.turn;
        let next = if turn == idx {
            (turn + 1) % NUM_LOCK
        } else {
            turn
        };
        if self.waiting[next] {
            // Hand-over: the candidate's flag is cleared while the lock flag
            // stays set, so the lock passes without ever being free.
            self.turn = next;
            self.waiting[next] = false;
        } else {
            self.turn = (next + 1) % NUM_LOCK;
            self.locked = false;
        }
    }
}

} // verus!
