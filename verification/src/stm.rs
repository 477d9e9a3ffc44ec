//! The orchestrator: owns the memory and runs the retry loop around a
//! caller-supplied transaction body. Each attempt gets a fresh transaction
//! object; the body reports success, a retry request, or an abort, and the
//! engine interprets that together with the transaction's conflict flag.
//!
//! A body may be run many times across retries, so it must be re-invocable;
//! any side effect it performs outside the transaction object's `load` and
//! `store` will visibly repeat on every retry. That is part of the caller's
//! contract and is deliberately not papered over here.
use crate::memory::Memory;
use crate::read_trans::ReadTrans;
use crate::write_trans::{covers, covers_keys, ws_map, WriteTrans};
use crate::{MEM_SIZE, NUM_STRIPES, VER_MASK};
use vstd::prelude::*;

verus! {

/// The three-way outcome a transaction body reports: a value to commit and
/// return, a request to give up without a conflict, or a definitive abort.
pub enum STMResult<T> {
    Done(T),
    Retry,
    Abort,
}

/// What a successful write transaction with write-set entries `ws` does to
/// the memory: the clock advances by one, every written stripe carries its
/// buffered bytes at the new version, unlocked, and every other stripe is
/// untouched: same bytes, same version, still unlocked iff it was.
pub open spec fn commits_to(ws: Seq<(usize, [u8; 8])>, m0: Memory, m1: Memory) -> bool {
    &&& m1.clock() == m0.clock() + 1
    &&& m1.bytes().len() == m0.bytes().len()
    &&& m1.words().len() == m0.words().len()
    &&& forall|a: usize|
        #[trigger] ws_map(ws).dom().contains(a) ==> {
            &&& m1.stripe_bytes(Memory::stripe_of(a)) == ws_map(ws)[a]@
            &&& m1.stripe_version(Memory::stripe_of(a)) == m0.clock() + 1
            &&& !m1.stripe_locked(Memory::stripe_of(a))
        }
    &&& forall|s: int|
        0 <= s < NUM_STRIPES && !covers_keys(ws, s) ==> {
            &&& m1.stripe_bytes(s) == m0.stripe_bytes(s)
            &&& m1.stripe_version(s) == m0.stripe_version(s)
            &&& m1.stripe_locked(s) == m0.stripe_locked(s)
        }
}

/// The engine: one memory region and the retry loops of the two transaction
/// kinds. Between transactions no stripe is ever left locked.
pub struct STM {
    mem: Memory,
}

impl STM {
    /// The owned memory.
    pub closed spec fn mem_view(self) -> Memory {
        self.mem
    }

    /// Well-formed and quiescent: the memory is well-formed and no stripe is
    /// locked. This holds whenever no transaction is mid-commit, and every
    /// entry point preserves it.
    pub open spec fn wf(self) -> bool {
        &&& self.mem_view().wf()
        &&& forall|s: int| 0 <= s < NUM_STRIPES ==> !self.mem_view().stripe_locked(s)
    }

    /// A fresh engine over an all-zero region with the clock at zero.
    pub fn new() -> (stm: STM)
        ensures
            stm.wf(),
            stm.mem_view().clock() == 0,
            forall|k: int| 0 <= k < MEM_SIZE ==> stm.mem_view().bytes()[k] == 0,
    {
        STM { mem: Memory::new() }
    }

    /// Run a read-only transaction body, retrying silently as long as the
    /// body succeeds but its attempt saw a conflict. Returns the body's value
    /// on a conflict-free success, and nothing when the body asked to retry
    /// without a conflict or aborted.
    ///
    /// The body receives a fresh transaction and the memory, works only
    /// through `ReadTrans::load`, and hands the transaction back with its
    /// outcome.
    pub fn read_transaction<F, R>(&self, f: F) -> (r: Option<R>) where
        F: Fn(ReadTrans, &Memory) -> (ReadTrans, STMResult<R>),

        requires
            self.wf(),
            forall|tr: ReadTrans, m: &Memory|
                m.wf() && tr.fresh_for(*m) ==> #[trigger] call_requires(f, (tr, m)),
            forall|tr: ReadTrans, m: &Memory, out: (ReadTrans, STMResult<R>)|
                #[trigger] call_ensures(f, (tr, m), out) ==> out.0.read_ver == tr.read_ver && (
                !tr.is_abort && m.quiescent_at(tr.read_ver) ==> !out.0.is_abort),
        ensures
            exists|tr: ReadTrans, m: &Memory, out: (ReadTrans, STMResult<R>)|
                {
                    &&& tr.fresh_for(self.mem_view())
                    &&& *m == self.mem_view()
                    &&& #[trigger] call_ensures(f, (tr, m), out)
                    &&& !out.0.is_abort
                    &&& match out.1 {
                        STMResult::Done(v) => r == Some(v),
                        STMResult::Retry => r is None,
                        STMResult::Abort => r is None,
                    }
                },
    {
        #[verifier::loop_isolation(false)]
        loop
            decreases 0int,
        {
            let m_ref = &self.mem;
            let tr = ReadTrans::new(m_ref);
            let ghost tr0 = tr;
            let ghost gm = m_ref;
            let (tr, res) = f(tr, m_ref);
            let ghost gout = (tr, res);
            proof {
                assert forall|s: int| 0 <= s < NUM_STRIPES implies self.mem_view().stripe_current(
                    s,
                    tr0.read_ver,
                ) by {}
                assert(self.mem_view().quiescent_at(tr0.read_ver));
                assert(!tr.is_abort);
            }
            match res {
                STMResult::Done(v) => {
                    if tr.is_abort {
                        // A conflicting attempt is discarded and retried with
                        // a fresh transaction. Unreachable while this engine
                        // holds the memory alone, but kept as the protocol
                        // demands.
                        continue;
                    }
                    return Some(v);
                },
                STMResult::Retry => {
                    if tr.is_abort {
                        continue;
                    }
                    // An explicit retry request with no conflict is surfaced
                    // to the caller, not retried internally.
                    return None;
                },
                STMResult::Abort => {
                    return None;
                },
            }
        }
    }

    /// Run a read-write transaction body. A conflict-free successful attempt
    /// is committed: its write-set stripes are locked, the clock is bumped,
    /// the read-set is validated if any other commit intervened, and the
    /// buffered writes are published at the new version. An attempt that
    /// fails to lock or validate releases everything it locked, changes not
    /// one byte, and is retried from scratch. `Retry` without a conflict and
    /// `Abort` both return nothing and leave the memory exactly as it was.
    ///
    /// The body receives a fresh transaction and the memory, works only
    /// through `WriteTrans::load` and `WriteTrans::store`, and hands the
    /// transaction back with its outcome.
    ///
    /// Known contract gap, kept as it stands: a caller cannot tell a
    /// conflict-free `Retry` from an `Abort` by the returned value alone —
    /// both surface as nothing. The contract below records which of the two
    /// happened; the value does not.
    pub fn write_transaction<F, R>(&mut self, f: F) -> (r: Option<R>) where
        F: Fn(WriteTrans, &Memory) -> (WriteTrans, STMResult<R>),

        requires
            old(self).wf(),
            old(self).mem_view().clock() < VER_MASK,
            forall|tr: WriteTrans, m: &Memory|
                m.wf() && tr.wf() && tr.fresh_for(*m) ==> #[trigger] call_requires(f, (tr, m)),
            forall|tr: WriteTrans, m: &Memory, out: (WriteTrans, STMResult<R>)|
                #[trigger] call_ensures(f, (tr, m), out) ==> WriteTrans::body_step(tr, *m, out.0),
        ensures
            final(self).wf(),
            exists|tr: WriteTrans, m: &Memory, out: (WriteTrans, STMResult<R>)|
                {
                    &&& tr.wf()
                    &&& tr.fresh_for(old(self).mem_view())
                    &&& *m == old(self).mem_view()
                    &&& #[trigger] call_ensures(f, (tr, m), out)
                    &&& !out.0.is_abort
                    &&& match out.1 {
                        STMResult::Done(v) => r == Some(v) && commits_to(
                            out.0.wset_entries(),
                            old(self).mem_view(),
                            final(self).mem_view(),
                        ),
                        STMResult::Retry => r is None && *final(self) == *old(self),
                        STMResult::Abort => r is None && *final(self) == *old(self),
                    }
                },
    {
        #[verifier::loop_isolation(false)]
        loop
            invariant
                *self == *old(self),
            decreases 0int,
        {
            let m_ref = &self.mem;
            let tr = WriteTrans::new(m_ref);
            let ghost tr0 = tr;
            let ghost gm = m_ref;
            let (mut tr, res) = f(tr, m_ref);
            let ghost gout = (tr, res);
            proof {
                assert(WriteTrans::body_step(tr0, *gm, tr));
                assert forall|s: int| 0 <= s < NUM_STRIPES implies self.mem_view().stripe_current(
                    s,
                    tr0.read_ver,
                ) by {}
                assert(self.mem_view().quiescent_at(tr0.read_ver));
                assert(!tr.is_abort);
            }
            match res {
                STMResult::Done(v) => {
                    if tr.is_abort {
                        // Conflict: discard the attempt (it holds no locks)
                        // and retry. Unreachable while this engine holds the
                        // memory alone, but kept as the protocol demands.
                        continue;
                    }
                    let ghost m0 = self.mem;
                    let ghost ws = gout.0.wset_entries();
                    if !tr.lock_write_set(&mut self.mem) {
                        // Some stripe was already locked: release what this
                        // attempt managed to lock and retry from the top.
                        // Unreachable for the same reason as above.
                        proof {
                            assert forall|i: int| 0 <= i < ws.len() implies !m0.stripe_locked(
                                Memory::stripe_of(#[trigger] ws[i].0),
                            ) by {
                                Memory::lemma_valid_addr(ws[i].0);
                            }
                            assert(false);
                        }
                        tr.release_locks(&mut self.mem);
                        continue;
                    }
                    let ghost tr_locked = tr;
                    let ghost m_locked = self.mem;
                    let c = self.mem.inc_global_clock();
                    let ver = c + 1;
                    let ghost m_inc = self.mem;
                    if tr.read_ver + 1 != ver {
                        // Other commits happened since this attempt's
                        // snapshot: the read-set must still be current.
                        if !tr.validate_read_set(&self.mem) {
                            tr.release_locks(&mut self.mem);
                            continue;
                        }
                    }
                    tr.commit(&mut self.mem, ver);
                    proof {
                        assert(tr.wset_entries() == ws);
                        // Stripes outside the write-set kept their words
                        // through locking, the clock bump, and the commit; in
                        // particular they stay unlocked.
                        assert forall|s: int|
                            0 <= s < NUM_STRIPES && !covers_keys(ws, s) implies {
                            &&& self.mem.stripe_bytes(s) == m0.stripe_bytes(s)
                            &&& self.mem.stripe_version(s) == m0.stripe_version(s)
                            &&& !self.mem.stripe_locked(s)
                        } by {
                            if covers(tr_locked.locked_list(), s) {
                                let k = choose|k: int|
                                    0 <= k < tr_locked.locked_list().len() && Memory::stripe_of(
                                        #[trigger] tr_locked.locked_list()[k],
                                    ) == s;
                                assert(tr_locked.locked_list()[k] == ws[k].0);
                                assert(covers_keys(ws, s));
                            }
                            assert(!covers(tr_locked.locked_list(), s));
                            assert(m_locked.words()[s] == m0.words()[s]);
                            assert(m_inc.words()[s] == m_locked.words()[s]);
                            assert(tr_locked.wset_entries() == ws);
                            assert(!covers_keys(tr_locked.wset_entries(), s));
                            assert(self.mem.words()[s] == m_inc.words()[s]);
                            assert(m_locked.bytes() == m0.bytes());
                            assert(m_inc.bytes() == m_locked.bytes());
                            assert(self.mem.stripe_bytes(s) == m_inc.stripe_bytes(s));
                            assert(m_inc.stripe_bytes(s) =~= m0.stripe_bytes(s));
                            assert(self.mem.words()[s] == m0.words()[s]);
                            assert(!m0.stripe_locked(s));
                            assert(self.mem.stripe_version(s) == m0.stripe_version(s));
                            assert(!self.mem.stripe_locked(s));
                            assert(self.mem.stripe_bytes(s) == m0.stripe_bytes(s));
                        }
                        // Every stripe ends unlocked: the written ones by the
                        // version publish, the rest because they never were.
                        assert forall|s: int| 0 <= s < NUM_STRIPES implies !self.mem.stripe_locked(
                            s,
                        ) by {
                            if covers_keys(ws, s) {
                                let k = choose|k: int|
                                    0 <= k < ws.len() && Memory::stripe_of(#[trigger] ws[k].0)
                                        == s;
                            }
                        }
                        // Every written stripe carries its buffered bytes at
                        // the new version.
                        assert forall|a: usize| #[trigger] ws_map(ws).dom().contains(a) implies {
                            &&& self.mem.stripe_bytes(Memory::stripe_of(a)) == ws_map(ws)[a]@
                            &&& self.mem.stripe_version(Memory::stripe_of(a)) == m0.clock() + 1
                            &&& !self.mem.stripe_locked(Memory::stripe_of(a))
                        } by {
                            assert(tr_locked.wset() == ws_map(ws));
                            assert(tr_locked.wset().dom().contains(a));
                            assert(self.mem.stripe_version(Memory::stripe_of(a)) == ver);
                        }
                        assert(self.mem.clock() == m0.clock() + 1);
                        assert(commits_to(ws, m0, self.mem_view()));
                    }
                    return Some(v);
                },
                STMResult::Retry => {
                    if tr.is_abort {
                        continue;
                    }
                    // An explicit retry request with no conflict is surfaced
                    // to the caller, not retried internally.
                    return None;
                },
                STMResult::Abort => {
                    return None;
                },
            }
        }
    }
}

} // verus!
