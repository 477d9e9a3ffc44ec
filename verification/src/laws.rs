//! Engine-level guarantees, each stated as a verified function over arbitrary
//! addresses and values. The bodies interleave real transactions against one
//! memory exactly as concurrent threads would at the engine's step
//! granularity, and the contracts pin down what every such interleaving must
//! observe.
use crate::memory::Memory;
use crate::read_trans::ReadTrans;
use crate::stm::{commits_to, STMResult, STM};
use crate::write_trans::{
    covers, covers_keys, keys_unique, lemma_ws_map_dom, lemma_ws_map_get, ws_map, WriteTrans,
};
use crate::{NUM_STRIPES, VER_MASK};
use vstd::prelude::*;

verus! {

/// A write-set built by a single store holds exactly that one entry.
proof fn lemma_single_entry(ws: Seq<(usize, [u8; 8])>, addr: usize, val: [u8; 8])
    requires
        keys_unique(ws),
        ws_map(ws) == Map::<usize, [u8; 8]>::empty().insert(addr, val),
    ensures
        ws.len() == 1,
        ws[0] == (addr, val),
{
    assert(ws_map(ws).dom().contains(addr));
    lemma_ws_map_dom(ws, addr);
    let i = choose|i: int| 0 <= i < ws.len() && ws[i].0 == addr;
    lemma_ws_map_get(ws, i);
    if ws.len() > 1 {
        let j: int = if i == 0 {
            1
        } else {
            0
        };
        lemma_ws_map_get(ws, j);
        assert(ws_map(ws).dom().contains(ws[j].0));
        assert(ws[j].0 == addr);
        assert(false);
    }
    assert(i == 0);
}

/// No partial commit: an attempt that reads, buffers a write, locks its
/// stripe, validates, and is then abandoned leaves the memory exactly as it
/// was: every byte, every stripe's version and lock state, and the clock.
/// Buffered writes touch nothing before a commit, and releasing the locks
/// restores every lock-version word.
pub fn aborted_attempt_leaves_memory_unchanged(mem: &mut Memory, addr: usize, val: [u8; 8])
    requires
        old(mem).wf(),
        Memory::valid_addr(addr),
    ensures
        final(mem).wf(),
        final(mem).bytes() == old(mem).bytes(),
        final(mem).clock() == old(mem).clock(),
        forall|s: int|
            0 <= s < NUM_STRIPES ==> final(mem).stripe_version(s) == old(mem).stripe_version(s),
        forall|s: int|
            0 <= s < NUM_STRIPES ==> final(mem).stripe_locked(s) == old(mem).stripe_locked(s),
{
    let mut tr = WriteTrans::new(mem);
    let _ = tr.load(mem, addr);
    tr.store(addr, val);
    let ghost m0 = *mem;
    let _locked = tr.lock_write_set(mem);
    let ghost tr_locked = tr;
    let _valid = tr.validate_read_set(mem);
    // The attempt is abandoned here, on whichever path: conflict, lock or
    // validation failure, or a caller abort. The scoped cleanup runs in all
    // of them.
    tr.release_locks(mem);
    proof {
        let ll = tr_locked.locked_list();
        assert forall|s: int| 0 <= s < NUM_STRIPES implies mem.stripe_locked(s) == old(
            mem,
        ).stripe_locked(s) by {
            if covers(ll, s) {
                let k = choose|k: int|
                    0 <= k < ll.len() && Memory::stripe_of(#[trigger] ll[k]) == s;
                assert(!m0.stripe_locked(s));
            }
        }
    }
}

/// Read your own write: within one write attempt, a load of an address this
/// attempt has stored returns exactly the buffered value, even after a rival
/// transaction commits different bytes to the very same stripe in between.
pub fn read_your_write(mem: &mut Memory, addr: usize, mine: [u8; 8], other: [u8; 8]) -> (r: Option<
    [u8; 8],
>)
    requires
        old(mem).wf(),
        Memory::valid_addr(addr),
        forall|s: int| 0 <= s < NUM_STRIPES ==> !old(mem).stripe_locked(s),
        old(mem).clock() < VER_MASK,
    ensures
        r == Some(mine),
        final(mem).stripe_bytes(Memory::stripe_of(addr)) == other@,
{
    let mut tr = WriteTrans::new(mem);
    tr.store(addr, mine);
    // A rival transaction overwrites the same stripe and commits.
    let mut rival = WriteTrans::new(mem);
    rival.store(addr, other);
    proof {
        assert forall|i: int| 0 <= i < rival.wset_entries().len() implies !mem.stripe_locked(
            Memory::stripe_of(#[trigger] rival.wset_entries()[i].0),
        ) by {
            Memory::lemma_valid_addr(rival.wset_entries()[i].0);
        }
    }
    let locked = rival.lock_write_set(mem);
    assert(locked);
    let c = mem.inc_global_clock();
    let ghost rival_pre = rival;
    rival.commit(mem, c + 1);
    proof {
        assert(rival_pre.wset() == Map::<usize, [u8; 8]>::empty().insert(addr, other));
        assert(rival_pre.wset().dom().contains(addr));
        assert(mem.stripe_bytes(Memory::stripe_of(addr)) == rival_pre.wset()[addr]@);
        assert(rival_pre.wset()[addr] == other);
    }
    // The attempt still answers from its own write-set, not from memory.
    let r = tr.load(mem, addr);
    proof {
        assert(tr.wset() == Map::<usize, [u8; 8]>::empty().insert(addr, mine));
        assert(tr.wset().dom().contains(addr));
    }
    r
}

/// Disjoint-stripe concurrency: two write transactions over different
/// stripes, interleaved from snapshot to commit, both commit without either
/// retrying because of the other. The second locks its stripe while the
/// first still holds its own, and its validation succeeds even though it
/// commits after the first bumped the clock.
pub fn disjoint_writers_both_commit(
    mem: &mut Memory,
    addr_a: usize,
    val_a: [u8; 8],
    addr_b: usize,
    val_b: [u8; 8],
)
    requires
        old(mem).wf(),
        Memory::valid_addr(addr_a),
        Memory::valid_addr(addr_b),
        addr_a != addr_b,
        forall|s: int| 0 <= s < NUM_STRIPES ==> !old(mem).stripe_locked(s),
        old(mem).clock() + 2 <= VER_MASK,
    ensures
        final(mem).wf(),
        final(mem).clock() == old(mem).clock() + 2,
        final(mem).stripe_bytes(Memory::stripe_of(addr_a)) == val_a@,
        final(mem).stripe_version(Memory::stripe_of(addr_a)) == old(mem).clock() + 1,
        !final(mem).stripe_locked(Memory::stripe_of(addr_a)),
        final(mem).stripe_bytes(Memory::stripe_of(addr_b)) == val_b@,
        final(mem).stripe_version(Memory::stripe_of(addr_b)) == old(mem).clock() + 2,
        !final(mem).stripe_locked(Memory::stripe_of(addr_b)),
{
    let ghost m0 = *mem;
    let ghost sa = Memory::stripe_of(addr_a);
    let ghost sb = Memory::stripe_of(addr_b);
    proof {
        Memory::lemma_distinct_stripes(addr_a, addr_b);
    }
    // Both attempts snapshot the same clock, read their own stripe and buffer
    // their write.
    let mut ta = WriteTrans::new(mem);
    let mut tb = WriteTrans::new(mem);
    let _ = ta.load(mem, addr_a);
    let _ = tb.load(mem, addr_b);
    ta.store(addr_a, val_a);
    tb.store(addr_b, val_b);
    proof {
        lemma_single_entry(ta.wset_entries(), addr_a, val_a);
        lemma_single_entry(tb.wset_entries(), addr_b, val_b);
        assert forall|i: int| 0 <= i < ta.wset_entries().len() implies !mem.stripe_locked(
            Memory::stripe_of(#[trigger] ta.wset_entries()[i].0),
        ) by {
            Memory::lemma_valid_addr(ta.wset_entries()[i].0);
        }
    }
    let la = ta.lock_write_set(mem);
    assert(la);
    let ghost ta_locked = ta;
    let ghost m1 = *mem;
    // The second attempt locks its stripe while the first holds its own:
    // disjointness is exactly what makes this succeed.
    proof {
        assert forall|i: int| 0 <= i < tb.wset_entries().len() implies !mem.stripe_locked(
            Memory::stripe_of(#[trigger] tb.wset_entries()[i].0),
        ) by {
            assert(tb.wset_entries()[i] == (addr_b, val_b));
            if covers(ta_locked.locked_list(), sb) {
                let k = choose|k: int|
                    0 <= k < ta_locked.locked_list().len() && Memory::stripe_of(
                        #[trigger] ta_locked.locked_list()[k],
                    ) == sb;
                assert(ta_locked.locked_list()[k] == addr_a);
                assert(false);
            }
            Memory::lemma_valid_addr(addr_b);
        }
    }
    let lb = tb.lock_write_set(mem);
    assert(lb);
    let ghost tb_locked = tb;
    let ghost m2 = *mem;
    // The first commits at the version after its snapshot: nothing else
    // committed since, so its validation is not even needed.
    let ca = mem.inc_global_clock();
    let ghost m3 = *mem;
    ta.commit(mem, ca + 1);
    let ghost m4 = *mem;
    proof {
        assert(ta_locked.wset_entries()[0] == (addr_a, val_a));
        if covers_keys(ta_locked.wset_entries(), sb) {
            let k = choose|k: int|
                0 <= k < ta_locked.wset_entries().len() && Memory::stripe_of(
                    #[trigger] ta_locked.wset_entries()[k].0,
                ) == sb;
            assert(false);
        }
        assert(m4.words()[sb] == m3.words()[sb]);
        assert(m4.stripe_version(sb) == m2.stripe_version(sb));
    }
    // The second committed later than its snapshot, so it validates its
    // read-set: the first touched no stripe it read.
    let cb = mem.inc_global_clock();
    let ghost m5 = *mem;
    proof {
        assert forall|x: usize| tb.rset().contains(x) implies tb.addr_validates(*mem, x) by {
            assert(tb.rset_elems().contains(x));
            let j = choose|j: int| 0 <= j < tb.rset_elems().len() && tb.rset_elems()[j] == x;
            assert(x == addr_b);
            assert(tb.wset().dom().contains(addr_b));
            assert(m5.stripe_version(sb) == m4.stripe_version(sb));
            assert(m2.stripe_version(sb) == m1.stripe_version(sb));
            assert(m1.stripe_version(sb) == m0.stripe_version(sb));
            assert(m0.stripe_version(sb) <= m0.clock());
        }
    }
    let okb = tb.validate_read_set(mem);
    assert(okb);
    tb.commit(mem, cb + 1);
    proof {
        // The second commit left the first one's stripe alone.
        assert(tb_locked.wset_entries()[0] == (addr_b, val_b));
        if covers_keys(tb_locked.wset_entries(), sa) {
            let k = choose|k: int|
                0 <= k < tb_locked.wset_entries().len() && Memory::stripe_of(
                    #[trigger] tb_locked.wset_entries()[k].0,
                ) == sa;
            assert(false);
        }
        assert(mem.words()[sa] == m5.words()[sa]);
        assert(mem.stripe_bytes(sa) == m5.stripe_bytes(sa));
        assert(m5.stripe_bytes(sa) =~= m4.stripe_bytes(sa));
        assert(ta_locked.wset().dom().contains(addr_a));
        assert(m4.stripe_bytes(sa) == ta_locked.wset()[addr_a]@);
        assert(ta_locked.wset()[addr_a] == val_a);
        assert(tb_locked.wset().dom().contains(addr_b));
        assert(mem.stripe_bytes(sb) == tb_locked.wset()[addr_b]@);
        assert(tb_locked.wset()[addr_b] == val_b);
    }
}

/// Conflicting-stripe serialization: two write transactions over the same
/// stripe. While the first holds the commit-phase lock the second's locking
/// fails: it detects the conflict, holds nothing, and backs off. After the
/// first has committed, the retried attempt locks and commits. Exactly one
/// commit happened without a retry; the second value wins.
pub fn conflicting_writers_serialize(mem: &mut Memory, addr: usize, val_a: [u8; 8], val_b: [u8; 8])
    requires
        old(mem).wf(),
        Memory::valid_addr(addr),
        forall|s: int| 0 <= s < NUM_STRIPES ==> !old(mem).stripe_locked(s),
        old(mem).clock() + 2 <= VER_MASK,
    ensures
        final(mem).wf(),
        final(mem).clock() == old(mem).clock() + 2,
        final(mem).stripe_bytes(Memory::stripe_of(addr)) == val_b@,
        final(mem).stripe_version(Memory::stripe_of(addr)) == old(mem).clock() + 2,
        !final(mem).stripe_locked(Memory::stripe_of(addr)),
{
    let ghost st = Memory::stripe_of(addr);
    // The first attempt locks the stripe for its commit.
    let mut ta = WriteTrans::new(mem);
    ta.store(addr, val_a);
    proof {
        lemma_single_entry(ta.wset_entries(), addr, val_a);
        assert forall|i: int| 0 <= i < ta.wset_entries().len() implies !mem.stripe_locked(
            Memory::stripe_of(#[trigger] ta.wset_entries()[i].0),
        ) by {
            Memory::lemma_valid_addr(ta.wset_entries()[i].0);
        }
    }
    let la = ta.lock_write_set(mem);
    assert(la);
    let ghost ta_locked = ta;
    // The rival attempt cannot lock the shared stripe: the conflict is
    // detected, and the attempt holds no lock at all.
    let mut tb = WriteTrans::new(mem);
    tb.store(addr, val_b);
    proof {
        lemma_single_entry(tb.wset_entries(), addr, val_b);
        assert(covers(ta_locked.locked_list(), st)) by {
            assert(ta_locked.locked_list()[0] == addr);
        }
        assert(mem.stripe_locked(st));
    }
    let lb = tb.lock_write_set(mem);
    assert(!lb);
    proof {
        // It failed on its first and only stripe, so it locked nothing.
        if tb.locked_list().len() > 0 {
            assert(tb.locked_list()[0] == tb.wset_entries()[0].0);
            assert(false);
        }
    }
    // The whole rival attempt is discarded; its cleanup has nothing to undo.
    tb.release_locks(mem);
    // The first attempt commits.
    let ca = mem.inc_global_clock();
    ta.commit(mem, ca + 1);
    // The retried attempt now finds the stripe unlocked and commits in turn.
    let mut tb2 = WriteTrans::new(mem);
    tb2.store(addr, val_b);
    proof {
        lemma_single_entry(tb2.wset_entries(), addr, val_b);
        assert(ta_locked.wset().dom().contains(addr));
        assert forall|i: int| 0 <= i < tb2.wset_entries().len() implies !mem.stripe_locked(
            Memory::stripe_of(#[trigger] tb2.wset_entries()[i].0),
        ) by {
            assert(tb2.wset_entries()[i] == (addr, val_b));
        }
    }
    let lb2 = tb2.lock_write_set(mem);
    assert(lb2);
    let cb = mem.inc_global_clock();
    let ghost tb2_pre = tb2;
    tb2.commit(mem, cb + 1);
    proof {
        assert(tb2_pre.wset() == Map::<usize, [u8; 8]>::empty().insert(addr, val_b));
        assert(tb2_pre.wset().dom().contains(addr));
        assert(mem.stripe_bytes(st) == tb2_pre.wset()[addr]@);
        assert(tb2_pre.wset()[addr] == val_b);
    }
}

/// No torn reads: a reader that samples a stripe while a committer holds its
/// lock aborts and returns nothing; readers before and after the commit get
/// exactly the pre-write and post-write bytes. Nothing in between can be
/// observed.
pub fn no_torn_reads(mem: &mut Memory, addr: usize, val: [u8; 8]) -> (outcome: (
    Option<[u8; 8]>,
    Option<[u8; 8]>,
    Option<[u8; 8]>,
))
    requires
        old(mem).wf(),
        Memory::valid_addr(addr),
        forall|s: int| 0 <= s < NUM_STRIPES ==> !old(mem).stripe_locked(s),
        old(mem).clock() < VER_MASK,
    ensures
        (outcome.0 matches Some(v) && v@ == old(mem).stripe_bytes(Memory::stripe_of(addr))),
        outcome.1 is None,
        (outcome.2 matches Some(v) && v@ == val@),
        final(mem).stripe_bytes(Memory::stripe_of(addr)) == val@,
{
    let ghost st = Memory::stripe_of(addr);
    // Before the commit: the reader sees the old bytes.
    let mut r0 = ReadTrans::new(mem);
    let before = r0.load(mem, addr);
    // A committer locks the stripe and has already copied its bytes in, but
    // has not yet published the new version: the stripe is mid-write.
    let mut tw = WriteTrans::new(mem);
    tw.store(addr, val);
    proof {
        lemma_single_entry(tw.wset_entries(), addr, val);
        assert forall|i: int| 0 <= i < tw.wset_entries().len() implies !mem.stripe_locked(
            Memory::stripe_of(#[trigger] tw.wset_entries()[i].0),
        ) by {
            Memory::lemma_valid_addr(tw.wset_entries()[i].0);
        }
    }
    let lw = tw.lock_write_set(mem);
    assert(lw);
    mem.write_stripe(addr, &val);
    // Mid-commit: the reader detects the lock and aborts instead of
    // returning half-written bytes.
    let mut r1 = ReadTrans::new(mem);
    let during = r1.load(mem, addr);
    proof {
        assert(covers(tw.locked_list(), st)) by {
            assert(tw.locked_list()[0] == addr);
        }
        assert(mem.stripe_locked(st));
    }
    assert(during is None);
    // The commit completes: bytes and version are published, the lock clears.
    let c = mem.inc_global_clock();
    let ghost tw_pre = tw;
    tw.commit(mem, c + 1);
    proof {
        assert(tw_pre.wset() == Map::<usize, [u8; 8]>::empty().insert(addr, val));
        assert(tw_pre.wset().dom().contains(addr));
        assert(mem.stripe_bytes(st) == tw_pre.wset()[addr]@);
        assert(tw_pre.wset()[addr] == val);
        assert(mem.stripe_version(st) == c + 1);
        assert(!mem.stripe_locked(st));
    }
    // After the commit: the reader sees exactly the new bytes.
    let mut r2 = ReadTrans::new(mem);
    let after = r2.load(mem, addr);
    (before, during, after)
}

/// The orchestrated path end to end: a write transaction whose body buffers
/// one store and succeeds commits exactly that write, and the engine reports
/// the body's value.
pub fn stm_store_commits(stm: &mut STM, addr: usize, val: [u8; 8]) -> (r: Option<bool>)
    requires
        old(stm).wf(),
        Memory::valid_addr(addr),
        old(stm).mem_view().clock() < VER_MASK,
    ensures
        final(stm).wf(),
        r == Some(true),
        final(stm).mem_view().stripe_bytes(Memory::stripe_of(addr)) == val@,
        final(stm).mem_view().clock() == old(stm).mem_view().clock() + 1,
{
    let body = |tr: WriteTrans, m: &Memory| -> (out: (WriteTrans, STMResult<bool>))
        requires
            tr.wf(),
            Memory::valid_addr(addr),
        ensures
            WriteTrans::body_step(tr, *m, out.0),
            out.0.wset() == tr.wset().insert(addr, val),
            (out.1 matches STMResult::Done(b) && b),
        {
            let mut tr = tr;
            tr.store(addr, val);
            (tr, STMResult::Done(true))
        };
    let r = stm.write_transaction(body);
    proof {
        let (tr_w, m_w, out_w): (WriteTrans, &Memory, (WriteTrans, STMResult<bool>)) = choose|
            tr_w: WriteTrans,
            m_w: &Memory,
            out_w: (WriteTrans, STMResult<bool>),
        |
            {
                &&& tr_w.wf()
                &&& tr_w.fresh_for(old(stm).mem_view())
                &&& *m_w == old(stm).mem_view()
                &&& #[trigger] call_ensures(body, (tr_w, m_w), out_w)
                &&& !out_w.0.is_abort
                &&& match out_w.1 {
                    STMResult::Done(v) => r == Some(v) && commits_to(
                        out_w.0.wset_entries(),
                        old(stm).mem_view(),
                        stm.mem_view(),
                    ),
                    STMResult::Retry => r is None && *stm == *old(stm),
                    STMResult::Abort => r is None && *stm == *old(stm),
                }
            };
        // The body's contract: it returned success and its write-set is the
        // single buffered store.
        assert(out_w.0.wset() == tr_w.wset().insert(addr, val));
        assert(out_w.0.wset().dom().contains(addr));
        assert(out_w.0.wset()[addr] == val);
    }
    r
}

} // verus!
