//! The state machine of a ticket lock: acquirers draw strictly increasing
//! ticket numbers and are served in that order. The concurrent original
//! spins until the `turn` counter reaches the drawn ticket and releases in a
//! guard drop; here the spin becomes a precondition and the release an
//! explicit method that consumes the guard.
use vstd::prelude::*;

verus! {

/// A ticket lock around a value: `ticket` is the next number to hand out,
/// `turn` the number currently served.
pub struct TicketLock<T> {
    /// Next ticket to hand out.
    pub ticket: usize,
    /// Ticket currently being served.
    pub turn: usize,
    /// The protected value.
    pub data: T,
}

/// Witness that its holder drew ticket `ticket` and may touch the data while
/// that ticket is being served.
pub struct TicketLockGuard {
    /// The ticket this holder drew.
    pub ticket: usize,
}

impl<T> TicketLock<T> {
    /// No ticket is outstanding: the next one handed out is served at once.
    pub open spec fn unlocked(self) -> bool {
        self.turn == self.ticket
    }

    /// A fresh, unlocked lock around `v`.
    pub fn new(v: T) -> (l: TicketLock<T>)
        ensures
            l.ticket == 0,
            l.turn == 0,
            l.data == v,
    {
        TicketLock { ticket: 0, turn: 0, data: v }
    }

    /// Draw a ticket and acquire. The concurrent original spins until `turn`
    /// reaches the drawn ticket; sequentially the lock must be free, else
    /// that spin would never end.
    pub fn lock(&mut self) -> (g: TicketLockGuard)
        requires
            old(self).unlocked(),
            old(self).ticket < usize::MAX,
        ensures
            g.ticket == old(self).ticket,
            g.ticket == final(self).turn,
            final(self).ticket == old(self).ticket + 1,
            final(self).turn == old(self).turn,
            final(self).data == old(self).data,
    {
        let t = self.ticket;
        self.ticket = t + 1;
        TicketLockGuard { ticket: t }
    }

    /// Read the protected value while holding the lock.
    pub fn read(&self, g: &TicketLockGuard) -> (r: &T)
        requires
            g.ticket == self.turn,
        ensures
            *r == self.data,
    {
        &self.data
    }

    /// Replace the protected value while holding the lock.
    pub fn write(&mut self, g: &TicketLockGuard, v: T)
        requires
            g.ticket == old(self).turn,
        ensures
            final(self).data == v,
            final(self).ticket == old(self).ticket,
            final(self).turn == old(self).turn,
    {
        self.data = v;
    }

    /// Release: serve the next ticket. This stands for the guard drop of the
    /// concurrent original and consumes the guard, so a holder cannot
    /// release twice.
    pub fn unlock(&mut self, g: TicketLockGuard)
        requires
            g.ticket == old(self).turn,
            old(self).turn < usize::MAX,
        ensures
            final(self).turn == old(self).turn + 1,
            final(self).ticket == old(self).ticket,
            final(self).data == old(self).data,
    {
        let _ = g;
        self.turn = self.turn + 1;
    }
}

} // verus!
