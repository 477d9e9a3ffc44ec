//! A software transactional memory engine in the TL2 (Transactional Locking
//! II) style: a fixed-size byte region partitioned into 8-byte stripes, each
//! guarded by a 64-bit lock-version word, with a global version clock.
//! Optimistic read and write transactions detect conflicts through a single
//! unlocked-and-not-newer predicate and commit through per-stripe locking,
//! read-set validation, and a versioned publish.
//!
//! Alongside the engine, the crate carries a few small verified concurrency
//! bookkeeping structures: a banker's-algorithm resource manager, a counting
//! semaphore's counter discipline, a keyed list of queues, and the state
//! machines of a ticket lock and a bounded fair lock.
use vstd::prelude::*;

pub mod bankers;
pub mod fair_lock;
pub mod laws;
pub mod mapped_list;
pub mod memory;
pub mod read_trans;
pub mod semaphore;
pub mod stm;
pub mod ticket_lock;
pub mod write_trans;

verus! {

/// Size in bytes of one stripe, the unit of locking and versioning.
pub const STRIPE_SIZE: usize = 8;

/// Size in bytes of the whole memory region: 64 stripes.
pub const MEM_SIZE: usize = 512;

/// Number of stripes in the region.
pub const NUM_STRIPES: usize = 64;

/// Top bit of a lock-version word: the exclusive-lock flag.
pub const LOCK_MASK: u64 = 0x8000_0000_0000_0000;

/// The other 63 bits of a lock-version word: the version number.
pub const VER_MASK: u64 = 0x7fff_ffff_ffff_ffff;

} // verus!
