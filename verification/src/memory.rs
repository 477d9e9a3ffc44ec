//! The versioned, stripe-locked memory region: a fixed-size byte buffer split
//! into 8-byte stripes, one 64-bit lock-version word per stripe (top bit =
//! lock flag, lower 63 bits = version of the last commit), and a global
//! version clock that grows by one per successful commit.
use crate::{LOCK_MASK, MEM_SIZE, NUM_STRIPES, STRIPE_SIZE, VER_MASK};
use vstd::prelude::*;

verus! {

/// Whether a lock-version word has its lock flag (the top bit) set.
pub open spec fn word_locked(w: u64) -> bool {
    w >= LOCK_MASK
}

/// The version bits of a lock-version word, ignoring the lock flag.
pub open spec fn word_version(w: u64) -> u64 {
    if w >= LOCK_MASK {
        (w - LOCK_MASK) as u64
    } else {
        w
    }
}

/// The memory region with its per-stripe lock-version words and the global
/// version clock. Pure state: all transaction logic lives in the transaction
/// types.
pub struct Memory {
    mem: Vec<u8>,
    lock_ver: Vec<u64>,
    global_clock: u64,
}

impl Memory {
    /// The contents of the byte region.
    pub closed spec fn bytes(self) -> Seq<u8> {
        self.mem@
    }

    /// The per-stripe lock-version words.
    pub closed spec fn words(self) -> Seq<u64> {
        self.lock_ver@
    }

    /// The global version clock.
    pub closed spec fn clock(self) -> u64 {
        self.global_clock
    }

    /// Whether stripe `s` is currently locked by a committing transaction.
    pub open spec fn stripe_locked(self, s: int) -> bool {
        word_locked(self.words()[s])
    }

    /// The version at which stripe `s` was last committed.
    pub open spec fn stripe_version(self, s: int) -> u64 {
        word_version(self.words()[s])
    }

    /// The bytes of stripe `s`.
    pub open spec fn stripe_bytes(self, s: int) -> Seq<u8> {
        self.bytes().subrange(s * (STRIPE_SIZE as int), s * (STRIPE_SIZE as int) + (
        STRIPE_SIZE as int))
    }

    /// A stripe-aligned address inside the region. Alignment is a caller
    /// obligation, not a recoverable error: every operation on an address
    /// demands it.
    pub open spec fn valid_addr(addr: usize) -> bool {
        addr % STRIPE_SIZE == 0 && addr < MEM_SIZE
    }

    /// The stripe that a stripe-aligned address names.
    pub open spec fn stripe_of(addr: usize) -> int {
        addr as int / STRIPE_SIZE as int
    }

    /// Well-formedness: region and word table have their fixed sizes, the
    /// clock fits in the 63 version bits, and no stripe's version is ever
    /// newer than the global clock.
    pub open spec fn wf(self) -> bool {
        &&& self.bytes().len() == MEM_SIZE
        &&& self.words().len() == NUM_STRIPES
        &&& self.clock() <= VER_MASK
        &&& forall|s: int| 0 <= s < NUM_STRIPES ==> self.stripe_version(s) <= self.clock()
    }

    /// The single conflict test of the engine, on one stripe: unlocked and
    /// not newer than the read-version `rv`.
    pub open spec fn stripe_current(self, s: int, rv: u64) -> bool {
        !self.stripe_locked(s) && self.stripe_version(s) <= rv
    }

    /// No stripe is locked and every stripe's version is at most `rv`: the
    /// state in which any load against read-version `rv` succeeds.
    pub open spec fn quiescent_at(self, rv: u64) -> bool {
        forall|s: int| 0 <= s < NUM_STRIPES ==> self.stripe_current(s, rv)
    }

    /// Basic facts about a valid address: it stays in bounds with a whole
    /// stripe after it, and it is exactly its stripe's first byte.
    pub proof fn lemma_valid_addr(addr: usize)
        requires
            Self::valid_addr(addr),
        ensures
            addr + STRIPE_SIZE <= MEM_SIZE,
            0 <= Self::stripe_of(addr) < NUM_STRIPES,
            addr == Self::stripe_of(addr) * (STRIPE_SIZE as int),
    {
        assert(addr == (addr / 8) * 8 + addr % 8) by (nonlinear_arith);
    }

    /// Distinct valid addresses name distinct stripes.
    pub proof fn lemma_distinct_stripes(a: usize, b: usize)
        requires
            Self::valid_addr(a),
            Self::valid_addr(b),
            a != b,
        ensures
            Self::stripe_of(a) != Self::stripe_of(b),
    {
        Self::lemma_valid_addr(a);
        Self::lemma_valid_addr(b);
    }

    /// A fresh region: all bytes zero, all stripes unlocked at version zero,
    /// clock at zero.
    pub fn new() -> (m: Memory)
        ensures
            m.wf(),
            m.clock() == 0,
            forall|k: int| 0 <= k < MEM_SIZE ==> m.bytes()[k] == 0,
            forall|s: int| 0 <= s < NUM_STRIPES ==> m.words()[s] == 0,
    {
        let mut mem: Vec<u8> = Vec::new();
        let mut i: usize = 0;
        while i < MEM_SIZE
            invariant
                i <= MEM_SIZE,
                mem@.len() == i,
                forall|k: int| 0 <= k < i ==> mem@[k] == 0,
            decreases MEM_SIZE - i,
        {
            mem.push(0);
            i += 1;
        }
        let mut lock_ver: Vec<u64> = Vec::new();
        let mut s: usize = 0;
        while s < NUM_STRIPES
            invariant
                s <= NUM_STRIPES,
                lock_ver@.len() == s,
                forall|k: int| 0 <= k < s ==> lock_ver@[k] == 0,
            decreases NUM_STRIPES - s,
        {
            lock_ver.push(0);
            s += 1;
        }
        Memory { mem, lock_ver, global_clock: 0 }
    }

    /// The current value of the global version clock.
    pub fn clock_value(&self) -> (c: u64)
        ensures
            c == self.clock(),
    {
        self.global_clock
    }

    /// Advance the global clock by one and return its previous value. Called
    /// exactly once per commit; never on abort or retry.
    pub fn inc_global_clock(&mut self) -> (c: u64)
        requires
            old(self).wf(),
            old(self).clock() < VER_MASK,
        ensures
            final(self).wf(),
            c == old(self).clock(),
            final(self).clock() == c + 1,
            final(self).bytes() == old(self).bytes(),
            final(self).words() == old(self).words(),
    {
        let c = self.global_clock;
        self.global_clock = c + 1;
        proof {
            assert forall|s: int| 0 <= s < NUM_STRIPES implies self.stripe_version(s)
                <= self.clock() by {
                assert(old(self).stripe_version(s) <= old(self).clock());
            }
        }
        c
    }

    /// The stored version of the stripe at `addr`, ignoring the lock flag.
    pub fn get_addr_ver(&self, addr: usize) -> (v: u64)
        requires
            self.wf(),
            Self::valid_addr(addr),
        ensures
            v == self.stripe_version(Self::stripe_of(addr)),
    {
        proof {
            Self::lemma_valid_addr(addr);
        }
        let idx = addr / STRIPE_SIZE;
        let w = self.lock_ver[idx];
        if w >= LOCK_MASK {
            w - LOCK_MASK
        } else {
            w
        }
    }

    /// The conflict test: true iff the stripe at `addr` is unlocked and its
    /// version is at most `rv`. One comparison of the whole word decides
    /// both, because `rv` never has the lock bit set.
    pub fn test_not_modify(&self, addr: usize, rv: u64) -> (b: bool)
        requires
            self.wf(),
            Self::valid_addr(addr),
            rv <= VER_MASK,
        ensures
            b == self.stripe_current(Self::stripe_of(addr), rv),
    {
        proof {
            Self::lemma_valid_addr(addr);
        }
        let idx = addr / STRIPE_SIZE;
        let w = self.lock_ver[idx];
        w <= rv
    }

    /// Try to set the lock flag of the stripe at `addr`. Succeeds iff the
    /// flag was clear; the version bits are preserved either way.
    pub fn lock_addr(&mut self, addr: usize) -> (b: bool)
        requires
            old(self).wf(),
            Self::valid_addr(addr),
        ensures
            final(self).wf(),
            b == !old(self).stripe_locked(Self::stripe_of(addr)),
            final(self).bytes() == old(self).bytes(),
            final(self).clock() == old(self).clock(),
            final(self).words().len() == old(self).words().len(),
            forall|s: int|
                0 <= s < NUM_STRIPES && s != Self::stripe_of(addr) ==> final(self).words()[s]
                    == old(self).words()[s],
            final(self).stripe_version(Self::stripe_of(addr)) == old(self).stripe_version(
                Self::stripe_of(addr),
            ),
            b ==> final(self).stripe_locked(Self::stripe_of(addr)),
            !b ==> final(self).words() == old(self).words(),
    {
        proof {
            Self::lemma_valid_addr(addr);
        }
        let idx = addr / STRIPE_SIZE;
        let w = self.lock_ver[idx];
        if w < LOCK_MASK {
            self.lock_ver[idx] = w + LOCK_MASK;
            proof {
                assert forall|s: int| 0 <= s < NUM_STRIPES implies self.stripe_version(s)
                    <= self.clock() by {
                    assert(old(self).stripe_version(s) <= old(self).clock());
                }
            }
            true
        } else {
            false
        }
    }

    /// Clear the lock flag of the stripe at `addr`, leaving the version bits
    /// unchanged. Used when an attempt that locked stripes is abandoned.
    pub fn unlock_addr(&mut self, addr: usize)
        requires
            old(self).wf(),
            Self::valid_addr(addr),
        ensures
            final(self).wf(),
            final(self).bytes() == old(self).bytes(),
            final(self).clock() == old(self).clock(),
            final(self).words().len() == old(self).words().len(),
            forall|s: int|
                0 <= s < NUM_STRIPES && s != Self::stripe_of(addr) ==> final(self).words()[s]
                    == old(self).words()[s],
            !final(self).stripe_locked(Self::stripe_of(addr)),
            final(self).stripe_version(Self::stripe_of(addr)) == old(self).stripe_version(
                Self::stripe_of(addr),
            ),
    {
        proof {
            Self::lemma_valid_addr(addr);
        }
        let idx = addr / STRIPE_SIZE;
        let w = self.lock_ver[idx];
        if w >= LOCK_MASK {
            self.lock_ver[idx] = w - LOCK_MASK;
        }
        proof {
            assert forall|s: int| 0 <= s < NUM_STRIPES implies self.stripe_version(s)
                <= self.clock() by {
                assert(old(self).stripe_version(s) <= old(self).clock());
            }
        }
    }

    /// Copy the stripe at `addr` out of the region.
    pub fn read_stripe(&self, addr: usize) -> (r: [u8; 8])
        requires
            self.wf(),
            Self::valid_addr(addr),
        ensures
            r@ == self.stripe_bytes(Self::stripe_of(addr)),
    {
        proof {
            Self::lemma_valid_addr(addr);
        }
        let mut buf = [0u8; 8];
        let mut i: usize = 0;
        while i < STRIPE_SIZE
            invariant
                self.wf(),
                Self::valid_addr(addr),
                addr + STRIPE_SIZE <= MEM_SIZE,
                i <= STRIPE_SIZE,
                buf@.len() == 8,
                forall|k: int| 0 <= k < i ==> buf@[k] == self.bytes()[addr + k],
            decreases STRIPE_SIZE - i,
        {
            buf[i] = self.mem[addr + i];
            i += 1;
        }
        proof {
            Self::lemma_valid_addr(addr);
            assert(buf@ =~= self.stripe_bytes(Self::stripe_of(addr)));
        }
        buf
    }

    /// Copy `val` into the stripe at `addr`. Touches no byte outside that
    /// stripe and no lock-version word.
    pub fn write_stripe(&mut self, addr: usize, val: &[u8; 8])
        requires
            old(self).wf(),
            Self::valid_addr(addr),
        ensures
            final(self).wf(),
            final(self).words() == old(self).words(),
            final(self).clock() == old(self).clock(),
            final(self).bytes().len() == old(self).bytes().len(),
            forall|k: int|
                0 <= k < MEM_SIZE && !(addr <= k < addr + STRIPE_SIZE) ==> final(self).bytes()[k]
                    == old(self).bytes()[k],
            final(self).stripe_bytes(Self::stripe_of(addr)) == val@,
            forall|s: int|
                0 <= s < NUM_STRIPES && s != Self::stripe_of(addr) ==> final(self).stripe_bytes(s)
                    == old(self).stripe_bytes(s),
    {
        proof {
            Self::lemma_valid_addr(addr);
        }
        let mut i: usize = 0;
        while i < STRIPE_SIZE
            invariant
                Self::valid_addr(addr),
                addr + STRIPE_SIZE <= MEM_SIZE,
                i <= STRIPE_SIZE,
                self.words() == old(self).words(),
                self.clock() == old(self).clock(),
                self.bytes().len() == old(self).bytes().len(),
                self.bytes().len() == MEM_SIZE,
                forall|k: int|
                    0 <= k < MEM_SIZE && !(addr <= k < addr + i) ==> self.bytes()[k] == old(
                        self,
                    ).bytes()[k],
                forall|k: int| 0 <= k < i ==> self.bytes()[addr + k] == val@[k],
            decreases STRIPE_SIZE - i,
        {
            self.mem[addr + i] = val[i];
            i += 1;
        }
        proof {
            Self::lemma_valid_addr(addr);
            let s0 = Self::stripe_of(addr);
            assert(self.stripe_bytes(s0) =~= val@);
            assert forall|s: int| 0 <= s < NUM_STRIPES && s != s0 implies self.stripe_bytes(s)
                == old(self).stripe_bytes(s) by {
                assert(self.stripe_bytes(s) =~= old(self).stripe_bytes(s));
            }
            assert forall|s: int| 0 <= s < NUM_STRIPES implies self.stripe_version(s)
                <= self.clock() by {
                assert(old(self).stripe_version(s) <= old(self).clock());
            }
        }
    }

    /// Publish version `ver` for the stripe at `addr`: one store that both
    /// installs the new version and clears the lock flag, since valid
    /// versions never carry the lock bit.
    pub fn set_stripe_version(&mut self, addr: usize, ver: u64)
        requires
            old(self).wf(),
            Self::valid_addr(addr),
            ver <= old(self).clock(),
        ensures
            final(self).wf(),
            final(self).bytes() == old(self).bytes(),
            final(self).clock() == old(self).clock(),
            final(self).words().len() == old(self).words().len(),
            forall|s: int|
                0 <= s < NUM_STRIPES && s != Self::stripe_of(addr) ==> final(self).words()[s]
                    == old(self).words()[s],
            !final(self).stripe_locked(Self::stripe_of(addr)),
            final(self).stripe_version(Self::stripe_of(addr)) == ver,
    {
        proof {
            Self::lemma_valid_addr(addr);
        }
        let idx = addr / STRIPE_SIZE;
        self.lock_ver[idx] = ver;
        proof {
            assert forall|s: int| 0 <= s < NUM_STRIPES implies self.stripe_version(s)
                <= self.clock() by {
                assert(old(self).stripe_version(s) <= old(self).clock());
            }
        }
    }
}

} // verus!
