//! The read-only transaction: a lock-free, abort-on-conflict view over the
//! memory, valid for one attempt. It never takes a lock; it detects a
//! concurrent committer through the conflict test around each copy and aborts
//! instead of returning anything questionable.
use crate::memory::Memory;
use crate::VER_MASK;
use vstd::prelude::*;

verus! {

/// One read-only attempt. Created fresh per attempt and discarded when the
/// attempt ends.
pub struct ReadTrans {
    /// The global clock value at construction: the snapshot this attempt
    /// reads at.
    pub read_ver: u64,
    /// Set as soon as a conflict is detected; every later load fails fast.
    pub is_abort: bool,
}

impl ReadTrans {
    /// The state a transaction has when it is handed to a transaction body:
    /// snapshot taken from `m`, no conflict seen yet.
    pub open spec fn fresh_for(self, m: Memory) -> bool {
        &&& self.read_ver == m.clock()
        &&& !self.is_abort
    }

    /// A fresh read attempt against `mem`, snapshotting the global clock.
    pub fn new(mem: &Memory) -> (tr: ReadTrans)
        requires
            mem.wf(),
        ensures
            tr.fresh_for(*mem),
            tr.read_ver <= VER_MASK,
    {
        ReadTrans { read_ver: mem.clock_value(), is_abort: false }
    }

    /// Read the stripe at `addr`, or detect a conflict and abort. Returns the
    /// stripe's bytes exactly when the stripe is unlocked and not newer than
    /// the snapshot; otherwise returns nothing and marks the attempt aborted.
    /// Once aborted, every load returns nothing without touching memory.
    pub fn load(&mut self, mem: &Memory, addr: usize) -> (r: Option<[u8; 8]>)
        requires
            mem.wf(),
            Memory::valid_addr(addr),
            old(self).read_ver <= VER_MASK,
        ensures
            final(self).read_ver == old(self).read_ver,
            old(self).is_abort ==> r is None && *final(self) == *old(self),
            !old(self).is_abort ==> final(self).is_abort == !mem.stripe_current(
                Memory::stripe_of(addr),
                old(self).read_ver,
            ),
            !old(self).is_abort && mem.stripe_current(Memory::stripe_of(addr), old(self).read_ver)
                ==> (r matches Some(v) && v@ == mem.stripe_bytes(Memory::stripe_of(addr))),
            !old(self).is_abort && !mem.stripe_current(Memory::stripe_of(addr), old(self).read_ver)
                ==> r is None,
    {
        if self.is_abort {
            return None;
        }
        if !mem.test_not_modify(addr, self.read_ver) {
            self.is_abort = true;
            return None;
        }
        let buf = mem.read_stripe(addr);
        // Re-check after the copy: a committer that raced the copy would have
        // locked the stripe or published a newer version by now.
        if !mem.test_not_modify(addr, self.read_ver) {
            self.is_abort = true;
            return None;
        }
        Some(buf)
    }
}

} // verus!
