//! The read-write transaction: it buffers tentative writes in a write-set,
//! records every address read in a read-set, and on completion locks the
//! written stripes, validates the read-set, and commits against the memory.
//! An attempt that ends without committing releases whatever locks it still
//! holds and leaves every byte of the region as it was.
use crate::memory::Memory;
use crate::{NUM_STRIPES, VER_MASK};
use vstd::prelude::*;

verus! {

/// The write-set that a list of buffered entries denotes: a map from
/// stripe-aligned address to buffered stripe value, later entries winning.
pub open spec fn ws_map(s: Seq<(usize, [u8; 8])>) -> Map<usize, [u8; 8]>
    decreases s.len(),
{
    if s.len() == 0 {
        Map::empty()
    } else {
        ws_map(s.drop_last()).insert(s.last().0, s.last().1)
    }
}

/// Whether some entry carries the address `k`.
pub open spec fn has_key(s: Seq<(usize, [u8; 8])>, k: usize) -> bool {
    exists|i: int| 0 <= i < s.len() && s[i].0 == k
}

/// Every address occurs in at most one entry.
pub open spec fn keys_unique(s: Seq<(usize, [u8; 8])>) -> bool {
    forall|i: int, j: int| 0 <= i < j < s.len() ==> s[i].0 != s[j].0
}

/// Whether some element of `list` names stripe `st`.
pub open spec fn covers(list: Seq<usize>, st: int) -> bool {
    exists|i: int| 0 <= i < list.len() && Memory::stripe_of(#[trigger] list[i]) == st
}

/// Whether some entry of the write-set list names stripe `st`.
pub open spec fn covers_keys(s: Seq<(usize, [u8; 8])>, st: int) -> bool {
    exists|i: int| 0 <= i < s.len() && Memory::stripe_of(#[trigger] s[i].0) == st
}

/// Every element is a stripe-aligned address inside the region.
pub open spec fn all_valid_addrs(l: Seq<usize>) -> bool {
    forall|i: int| 0 <= i < l.len() ==> Memory::valid_addr(#[trigger] l[i])
}

/// Every entry's address is a stripe-aligned address inside the region.
pub open spec fn all_valid_keys(s: Seq<(usize, [u8; 8])>) -> bool {
    forall|i: int| 0 <= i < s.len() ==> Memory::valid_addr(#[trigger] s[i].0)
}

proof fn lemma_all_valid_push(l: Seq<usize>, x: usize)
    requires
        all_valid_addrs(l),
        Memory::valid_addr(x),
    ensures
        all_valid_addrs(l.push(x)),
{
    assert forall|i: int| 0 <= i < l.push(x).len() implies Memory::valid_addr(l.push(x)[i]) by {
        if i < l.len() {
            assert(l.push(x)[i] == l[i]);
        } else {
            assert(l.push(x)[i] == x);
        }
    }
}

proof fn lemma_all_valid_keys_push(s: Seq<(usize, [u8; 8])>, k: usize, v: [u8; 8])
    requires
        all_valid_keys(s),
        Memory::valid_addr(k),
    ensures
        all_valid_keys(s.push((k, v))),
{
    assert forall|i: int| 0 <= i < s.push((k, v)).len() implies Memory::valid_addr(
        s.push((k, v))[i].0,
    ) by {
        if i < s.len() {
            assert(s.push((k, v))[i] == s[i]);
        } else {
            assert(s.push((k, v))[i] == (k, v));
        }
    }
}

proof fn lemma_all_valid_keys_update(s: Seq<(usize, [u8; 8])>, i: int, v: [u8; 8])
    requires
        all_valid_keys(s),
        0 <= i < s.len(),
    ensures
        all_valid_keys(s.update(i, (s[i].0, v))),
{
    let t = s.update(i, (s[i].0, v));
    assert forall|j: int| 0 <= j < t.len() implies Memory::valid_addr(t[j].0) by {
        if j != i {
            assert(t[j] == s[j]);
        }
        assert(Memory::valid_addr(s[j].0));
    }
}

proof fn lemma_keys_unique_push(s: Seq<(usize, [u8; 8])>, k: usize, v: [u8; 8])
    requires
        keys_unique(s),
        !has_key(s, k),
    ensures
        keys_unique(s.push((k, v))),
{
    let t = s.push((k, v));
    assert forall|p: int, q: int| 0 <= p < q < t.len() implies t[p].0 != t[q].0 by {
        if q < s.len() {
            assert(t[p] == s[p] && t[q] == s[q]);
        } else {
            assert(t[q] == (k, v));
            assert(t[p] == s[p]);
            assert(s[p].0 != k);
        }
    }
}

proof fn lemma_keys_unique_update(s: Seq<(usize, [u8; 8])>, i: int, v: [u8; 8])
    requires
        keys_unique(s),
        0 <= i < s.len(),
    ensures
        keys_unique(s.update(i, (s[i].0, v))),
{
    let t = s.update(i, (s[i].0, v));
    assert forall|p: int, q: int| 0 <= p < q < t.len() implies t[p].0 != t[q].0 by {
        assert(t[p].0 == s[p].0 && t[q].0 == s[q].0);
        assert(s[p].0 != s[q].0);
    }
}

pub proof fn lemma_ws_map_dom(s: Seq<(usize, [u8; 8])>, k: usize)
    ensures
        ws_map(s).dom().contains(k) <==> has_key(s, k),
    decreases s.len(),
{
    if s.len() > 0 {
        lemma_ws_map_dom(s.drop_last(), k);
        if s.last().0 == k {
            assert(s[s.len() - 1].0 == k);
        } else {
            if has_key(s.drop_last(), k) {
                let i = choose|i: int| 0 <= i < s.drop_last().len() && s.drop_last()[i].0 == k;
                assert(s[i].0 == k);
            }
            if has_key(s, k) {
                let i = choose|i: int| 0 <= i < s.len() && s[i].0 == k;
                assert(i < s.len() - 1);
                assert(s.drop_last()[i].0 == k);
            }
        }
    }
}

pub proof fn lemma_ws_map_get(s: Seq<(usize, [u8; 8])>, i: int)
    requires
        keys_unique(s),
        0 <= i < s.len(),
    ensures
        ws_map(s).dom().contains(s[i].0),
        ws_map(s)[s[i].0] == s[i].1,
    decreases s.len(),
{
    if i == s.len() - 1 {
        lemma_ws_map_dom(s, s[i].0);
    } else {
        assert(s.drop_last()[i] == s[i]);
        lemma_ws_map_get(s.drop_last(), i);
        assert(s.last().0 != s[i].0);
    }
}

proof fn lemma_ws_map_push(s: Seq<(usize, [u8; 8])>, k: usize, v: [u8; 8])
    ensures
        ws_map(s.push((k, v))) == ws_map(s).insert(k, v),
{
    assert(s.push((k, v)).drop_last() =~= s);
    assert(s.push((k, v)).last() == (k, v));
}

proof fn lemma_ws_map_update(s: Seq<(usize, [u8; 8])>, i: int, v: [u8; 8])
    requires
        keys_unique(s),
        0 <= i < s.len(),
    ensures
        ws_map(s.update(i, (s[i].0, v))) == ws_map(s).insert(s[i].0, v),
    decreases s.len(),
{
    let k = s[i].0;
    let t = s.update(i, (k, v));
    if i == s.len() - 1 {
        assert(t.drop_last() =~= s.drop_last());
        assert(t.last() == (k, v));
        assert(ws_map(s.drop_last()).insert(k, s.last().1).insert(k, v) =~= ws_map(
            s.drop_last(),
        ).insert(k, v));
    } else {
        assert(t.drop_last() =~= s.drop_last().update(i, (k, v)));
        assert(s.drop_last()[i] == s[i]);
        lemma_ws_map_update(s.drop_last(), i, v);
        let e = s.last();
        assert(t.last() == e);
        assert(e.0 != k);
        assert(ws_map(s.drop_last()).insert(k, v).insert(e.0, e.1) =~= ws_map(
            s.drop_last(),
        ).insert(e.0, e.1).insert(k, v));
    }
}

proof fn lemma_push_to_set(s: Seq<usize>, x: usize)
    ensures
        s.push(x).to_set() == s.to_set().insert(x),
{
    assert forall|y: usize| s.push(x).to_set().contains(y) implies s.to_set().insert(x).contains(
        y,
    ) by {
        let i = choose|i: int| 0 <= i < s.push(x).len() && s.push(x)[i] == y;
        if i < s.len() {
            assert(s[i] == y);
        }
    }
    assert forall|y: usize| s.to_set().insert(x).contains(y) implies s.push(x).to_set().contains(
        y,
    ) by {
        if y == x {
            assert(s.push(x)[s.len() as int] == x);
        } else {
            let i = choose|i: int| 0 <= i < s.len() && s[i] == y;
            assert(s.push(x)[i] == y);
        }
    }
    assert(s.push(x).to_set() =~= s.to_set().insert(x));
}

proof fn lemma_covers_push(l: Seq<usize>, a: usize, st: int)
    ensures
        covers(l.push(a), st) <==> (covers(l, st) || Memory::stripe_of(a) == st),
{
    if covers(l.push(a), st) {
        let k = choose|k: int| 0 <= k < l.push(a).len() && Memory::stripe_of(#[trigger] l.push(a)[k]) == st;
        if k < l.len() {
            assert(l[k] == l.push(a)[k]);
            assert(covers(l, st));
        } else {
            assert(l.push(a)[k] == a);
        }
    }
    if covers(l, st) {
        let k = choose|k: int| 0 <= k < l.len() && Memory::stripe_of(#[trigger] l[k]) == st;
        assert(l.push(a)[k] == l[k]);
        assert(covers(l.push(a), st));
    }
    if Memory::stripe_of(a) == st {
        assert(l.push(a)[l.len() as int] == a);
        assert(covers(l.push(a), st));
    }
}

proof fn lemma_covers_take_step(l: Seq<usize>, i: int, st: int)
    requires
        0 <= i < l.len(),
    ensures
        covers(l.take(i + 1), st) <==> (covers(l.take(i), st) || Memory::stripe_of(l[i]) == st),
{
    if covers(l.take(i + 1), st) {
        let k = choose|k: int|
            0 <= k < l.take(i + 1).len() && Memory::stripe_of(#[trigger] l.take(i + 1)[k]) == st;
        if k < i {
            assert(l.take(i)[k] == l[k]);
            assert(covers(l.take(i), st));
        } else {
            assert(l.take(i + 1)[k] == l[i]);
        }
    }
    if covers(l.take(i), st) {
        let k = choose|k: int| 0 <= k < l.take(i).len() && Memory::stripe_of(#[trigger] l.take(i)[k]) == st;
        assert(l.take(i + 1)[k] == l[k]);
        assert(covers(l.take(i + 1), st));
    }
    if Memory::stripe_of(l[i]) == st {
        assert(l.take(i + 1)[i] == l[i]);
        assert(covers(l.take(i + 1), st));
    }
}

proof fn lemma_covers_keys_take_step(s: Seq<(usize, [u8; 8])>, i: int, st: int)
    requires
        0 <= i < s.len(),
    ensures
        covers_keys(s.take(i + 1), st) <==> (covers_keys(s.take(i), st) || Memory::stripe_of(
            s[i].0,
        ) == st),
{
    if covers_keys(s.take(i + 1), st) {
        let k = choose|k: int|
            0 <= k < s.take(i + 1).len() && Memory::stripe_of(#[trigger] s.take(i + 1)[k].0) == st;
        if k < i {
            assert(s.take(i)[k] == s[k]);
            assert(covers_keys(s.take(i), st));
        } else {
            assert(s.take(i + 1)[k] == s[i]);
        }
    }
    if covers_keys(s.take(i), st) {
        let k = choose|k: int| 0 <= k < s.take(i).len() && Memory::stripe_of(#[trigger] s.take(i)[k].0) == st;
        assert(s.take(i + 1)[k] == s[k]);
        assert(covers_keys(s.take(i + 1), st));
    }
    if Memory::stripe_of(s[i].0) == st {
        assert(s.take(i + 1)[i] == s[i]);
        assert(covers_keys(s.take(i + 1), st));
    }
}

/// One read-write attempt. Created fresh per attempt; an attempt that does
/// not commit must release its locks before it is discarded.
pub struct WriteTrans {
    /// The global clock value at construction: the snapshot this attempt
    /// reads at.
    pub read_ver: u64,
    /// The addresses read so far. Managed by `load`; callers go through the
    /// methods and the spec views.
    pub read_set: Vec<usize>,
    /// The buffered writes, one entry per address. Managed by `store`.
    pub write_set: Vec<(usize, [u8; 8])>,
    /// The addresses whose stripe locks this attempt holds. Managed by
    /// `lock_write_set`, `release_locks` and `commit`.
    pub locked: Vec<usize>,
    /// Set as soon as a conflict is detected; every later load fails fast.
    pub is_abort: bool,
}

impl WriteTrans {
    /// The buffered write-set entries, in store order.
    pub open spec fn wset_entries(self) -> Seq<(usize, [u8; 8])> {
        self.write_set@
    }

    /// The write-set as a map from address to buffered value.
    pub open spec fn wset(self) -> Map<usize, [u8; 8]> {
        ws_map(self.wset_entries())
    }

    /// The addresses recorded as read, in load order.
    pub open spec fn rset_elems(self) -> Seq<usize> {
        self.read_set@
    }

    /// The read-set: every address this attempt has read.
    pub open spec fn rset(self) -> Set<usize> {
        self.rset_elems().to_set()
    }

    /// The addresses whose stripe locks this attempt currently holds.
    pub open spec fn locked_list(self) -> Seq<usize> {
        self.locked@
    }

    /// Well-formedness: the snapshot fits in the version bits, write-set keys
    /// are unique, and every recorded address is stripe-aligned and in
    /// bounds.
    pub open spec fn wf(self) -> bool {
        &&& self.read_ver <= VER_MASK
        &&& keys_unique(self.wset_entries())
        &&& all_valid_keys(self.wset_entries())
        &&& all_valid_addrs(self.rset_elems())
        &&& all_valid_addrs(self.locked_list())
    }

    /// The state a transaction has when it is handed to a transaction body:
    /// snapshot taken from `m`, everything else empty.
    pub open spec fn fresh_for(self, m: Memory) -> bool {
        &&& self.read_ver == m.clock()
        &&& !self.is_abort
        &&& self.wset_entries().len() == 0
        &&& self.rset_elems().len() == 0
        &&& self.locked_list().len() == 0
    }

    /// What a transaction body may do to the transaction handed to it: any
    /// number of loads and stores. Those keep the snapshot version and the
    /// (empty) lock list, and cannot raise the abort flag while every stripe
    /// is unlocked and not newer than the snapshot.
    pub open spec fn body_step(pre: WriteTrans, m: Memory, post: WriteTrans) -> bool {
        &&& post.wf()
        &&& post.read_ver == pre.read_ver
        &&& post.locked_list() == pre.locked_list()
        &&& (!pre.is_abort && m.quiescent_at(pre.read_ver) ==> !post.is_abort)
    }

    /// A fresh write attempt against `mem`, snapshotting the global clock.
    pub fn new(mem: &Memory) -> (tr: WriteTrans)
        requires
            mem.wf(),
        ensures
            tr.wf(),
            tr.fresh_for(*mem),
    {
        WriteTrans {
            read_ver: mem.clock_value(),
            read_set: Vec::new(),
            write_set: Vec::new(),
            locked: Vec::new(),
            is_abort: false,
        }
    }

    /// Find the write-set entry for `addr`, if any.
    fn ws_find(&self, addr: usize) -> (r: Option<usize>)
        requires
            self.wf(),
        ensures
            match r {
                Some(i) => {
                    &&& 0 <= i < self.wset_entries().len()
                    &&& self.wset_entries()[i as int].0 == addr
                    &&& self.wset().dom().contains(addr)
                    &&& self.wset()[addr] == self.wset_entries()[i as int].1
                },
                None => {
                    &&& !has_key(self.wset_entries(), addr)
                    &&& !self.wset().dom().contains(addr)
                },
            },
    {
        let n = self.write_set.len();
        let mut i: usize = 0;
        while i < n
            invariant
                self.wf(),
                n == self.wset_entries().len(),
                i <= n,
                forall|j: int| 0 <= j < i ==> self.wset_entries()[j].0 != addr,
            decreases n - i,
        {
            if self.write_set[i].0 == addr {
                proof {
                    lemma_ws_map_get(self.wset_entries(), i as int);
                }
                return Some(i);
            }
            i += 1;
        }
        proof {
            lemma_ws_map_dom(self.wset_entries(), addr);
        }
        None
    }

    /// Buffer `val` for `addr`: insert into the write-set, overwriting any
    /// earlier store to the same address. No memory side effect yet.
    pub fn store(&mut self, addr: usize, val: [u8; 8])
        requires
            old(self).wf(),
            Memory::valid_addr(addr),
        ensures
            final(self).wf(),
            final(self).wset() == old(self).wset().insert(addr, val),
            final(self).read_ver == old(self).read_ver,
            final(self).is_abort == old(self).is_abort,
            final(self).rset_elems() == old(self).rset_elems(),
            final(self).locked_list() == old(self).locked_list(),
    {
        match self.ws_find(addr) {
            Some(i) => {
                proof {
                    lemma_ws_map_update(self.wset_entries(), i as int, val);
                    lemma_keys_unique_update(self.wset_entries(), i as int, val);
                    lemma_all_valid_keys_update(self.wset_entries(), i as int, val);
                }
                self.write_set[i] = (addr, val);
            },
            None => {
                proof {
                    lemma_ws_map_push(self.wset_entries(), addr, val);
                    lemma_keys_unique_push(self.wset_entries(), addr, val);
                    lemma_all_valid_keys_push(self.wset_entries(), addr, val);
                }
                self.write_set.push((addr, val));
            },
        }
    }

    /// Read `addr` within this attempt. The address always enters the
    /// read-set. A value buffered by an earlier `store` to `addr` is returned
    /// as it is, whatever the memory holds (read your own write); otherwise
    /// the stripe is copied with the same abort-on-conflict double check as a
    /// read-only transaction.
    pub fn load(&mut self, mem: &Memory, addr: usize) -> (r: Option<[u8; 8]>)
        requires
            old(self).wf(),
            mem.wf(),
            Memory::valid_addr(addr),
        ensures
            final(self).wf(),
            final(self).read_ver == old(self).read_ver,
            final(self).wset_entries() == old(self).wset_entries(),
            final(self).locked_list() == old(self).locked_list(),
            old(self).is_abort ==> r is None && *final(self) == *old(self),
            !old(self).is_abort ==> {
                &&& final(self).rset_elems() == old(self).rset_elems().push(addr)
                &&& final(self).rset() == old(self).rset().insert(addr)
            },
            !old(self).is_abort && old(self).wset().dom().contains(addr) ==> r == Some(
                old(self).wset()[addr],
            ) && !final(self).is_abort,
            !old(self).is_abort && !old(self).wset().dom().contains(addr) ==> {
                &&& final(self).is_abort == !mem.stripe_current(
                    Memory::stripe_of(addr),
                    old(self).read_ver,
                )
                &&& (mem.stripe_current(Memory::stripe_of(addr), old(self).read_ver) ==> (
                r matches Some(v) && v@ == mem.stripe_bytes(Memory::stripe_of(addr))))
                &&& (!mem.stripe_current(Memory::stripe_of(addr), old(self).read_ver) ==> r
                    is None)
            },
    {
        if self.is_abort {
            return None;
        }
        proof {
            lemma_push_to_set(self.rset_elems(), addr);
            lemma_all_valid_push(self.rset_elems(), addr);
        }
        self.read_set.push(addr);
        let found = self.ws_find(addr);
        if let Some(i) = found {
            return Some(self.write_set[i].1);
        }
        if !mem.test_not_modify(addr, self.read_ver) {
            self.is_abort = true;
            return None;
        }
        let buf = mem.read_stripe(addr);
        // Re-check after the copy: a committer that raced the copy would have
        // locked the stripe or published a newer version by now.
        if !mem.test_not_modify(addr, self.read_ver) {
            self.is_abort = true;
            return None;
        }
        Some(buf)
    }

    /// Try to lock every write-set stripe. Succeeds, with all of them locked
    /// and recorded, iff none was already locked; stops at the first stripe
    /// already held, with exactly the stripes locked so far recorded for the
    /// caller to release. Bytes, versions and the clock never change.
    pub fn lock_write_set(&mut self, mem: &mut Memory) -> (b: bool)
        requires
            old(self).wf(),
            old(mem).wf(),
            old(self).locked_list().len() == 0,
        ensures
            final(self).wf(),
            final(mem).wf(),
            final(self).read_ver == old(self).read_ver,
            final(self).is_abort == old(self).is_abort,
            final(self).wset_entries() == old(self).wset_entries(),
            final(self).rset_elems() == old(self).rset_elems(),
            final(mem).bytes() == old(mem).bytes(),
            final(mem).clock() == old(mem).clock(),
            final(mem).words().len() == old(mem).words().len(),
            forall|s: int|
                0 <= s < NUM_STRIPES ==> final(mem).stripe_version(s) == old(mem).stripe_version(
                    s,
                ),
            b == (forall|i: int|
                0 <= i < old(self).wset_entries().len() ==> !old(mem).stripe_locked(
                    Memory::stripe_of(#[trigger] old(self).wset_entries()[i].0),
                )),
            b ==> final(self).locked_list().len() == old(self).wset_entries().len(),
            forall|i: int|
                0 <= i < final(self).locked_list().len() ==> #[trigger] final(self).locked_list()[i]
                    == old(self).wset_entries()[i].0,
            forall|s: int|
                0 <= s < NUM_STRIPES ==> (final(mem).stripe_locked(s) == (old(mem).stripe_locked(s)
                    || covers(final(self).locked_list(), s))),
            forall|i: int|
                0 <= i < final(self).locked_list().len() ==> !old(mem).stripe_locked(
                    Memory::stripe_of(#[trigger] final(self).locked_list()[i]),
                ),
            forall|s: int|
                0 <= s < NUM_STRIPES && !covers(final(self).locked_list(), s) ==> final(
                    mem).words()[s] == old(mem).words()[s],
    {
        let n = self.write_set.len();
        let mut i: usize = 0;
        while i < n
            invariant
                self.wf(),
                mem.wf(),
                n == self.wset_entries().len(),
                i <= n,
                self.read_ver == old(self).read_ver,
                self.is_abort == old(self).is_abort,
                self.wset_entries() == old(self).wset_entries(),
                self.rset_elems() == old(self).rset_elems(),
                mem.bytes() == old(mem).bytes(),
                mem.clock() == old(mem).clock(),
                mem.words().len() == old(mem).words().len(),
                forall|s: int|
                    0 <= s < NUM_STRIPES ==> mem.stripe_version(s) == old(mem).stripe_version(s),
                self.locked_list().len() == i,
                forall|k: int|
                    0 <= k < i ==> #[trigger] self.locked_list()[k] == old(self).wset_entries()[k].0,
                forall|k: int|
                    0 <= k < i ==> !old(mem).stripe_locked(
                        Memory::stripe_of(#[trigger] self.locked_list()[k]),
                    ),
                forall|s: int|
                    0 <= s < NUM_STRIPES ==> (mem.stripe_locked(s) == (old(mem).stripe_locked(s)
                        || covers(self.locked_list(), s))),
                forall|s: int|
                    0 <= s < NUM_STRIPES && !covers(self.locked_list(), s) ==> mem.words()[s]
                        == old(mem).words()[s],
            decreases n - i,
        {
            let a = self.write_set[i].0;
            proof {
                assert(Memory::valid_addr(self.wset_entries()[i as int].0));
            }
            let ghost prev = *mem;
            let ghost pre_locked = self.locked_list();
            let got = mem.lock_addr(a);
            if !got {
                proof {
                    // The stripe at `a` was locked before this call started:
                    // none of the stripes locked so far is the one at `a`,
                    // because distinct aligned addresses sit in distinct
                    // stripes.
                    let st = Memory::stripe_of(a);
                    assert(prev.stripe_locked(st));
                    if covers(pre_locked, st) {
                        let k = choose|k: int|
                            0 <= k < pre_locked.len() && Memory::stripe_of(
                                #[trigger] pre_locked[k],
                            ) == st;
                        assert(pre_locked[k] == old(self).wset_entries()[k].0);
                        assert(old(self).wset_entries()[k].0 != old(self).wset_entries()[
                            i as int].0);
                        Memory::lemma_distinct_stripes(pre_locked[k], a);
                        assert(false);
                    }
                    assert(old(mem).stripe_locked(
                        Memory::stripe_of(old(self).wset_entries()[i as int].0),
                    ));
                    assert forall|s: int| 0 <= s < NUM_STRIPES implies (mem.stripe_locked(s) == (
                    old(mem).stripe_locked(s) || covers(self.locked_list(), s))) by {
                        assert(mem.words()[s] == prev.words()[s]);
                    }
                    assert forall|s: int| 0 <= s < NUM_STRIPES implies mem.stripe_version(s) == old(
                        mem,
                    ).stripe_version(s) by {
                        assert(mem.words()[s] == prev.words()[s]);
                    }
                    assert forall|s: int|
                        0 <= s < NUM_STRIPES && !covers(self.locked_list(), s) implies mem.words()[s]
                        == old(mem).words()[s] by {
                        assert(mem.words()[s] == prev.words()[s]);
                    }
                }
                return false;
            }
            proof {
                lemma_all_valid_push(self.locked_list(), a);
            }
            self.locked.push(a);
            proof {
                let st = Memory::stripe_of(a);
                assert(!prev.stripe_locked(st));
                assert(!old(mem).stripe_locked(st));
                assert forall|s: int| 0 <= s < NUM_STRIPES implies (mem.stripe_locked(s) == (old(
                    mem,
                ).stripe_locked(s) || covers(self.locked_list(), s))) by {
                    lemma_covers_push(pre_locked, a, s);
                    if s != st {
                        assert(mem.words()[s] == prev.words()[s]);
                    }
                }
                assert forall|s: int| 0 <= s < NUM_STRIPES implies mem.stripe_version(s) == old(
                    mem,
                ).stripe_version(s) by {
                    if s != st {
                        assert(mem.words()[s] == prev.words()[s]);
                    }
                }
                assert forall|s: int|
                    0 <= s < NUM_STRIPES && !covers(self.locked_list(), s) implies mem.words()[s]
                    == old(mem).words()[s] by {
                    lemma_covers_push(pre_locked, a, s);
                    assert(mem.words()[s] == prev.words()[s]);
                }
            }
            i += 1;
        }
        proof {
            assert forall|k: int| 0 <= k < old(self).wset_entries().len() implies !old(
                mem,
            ).stripe_locked(Memory::stripe_of(#[trigger] old(self).wset_entries()[k].0)) by {
                assert(self.locked_list()[k] == old(self).wset_entries()[k].0);
                assert(!old(mem).stripe_locked(Memory::stripe_of(self.locked_list()[k])));
            }
        }
        true
    }

    /// Release every lock this attempt still holds, leaving versions, bytes
    /// and the clock untouched. Called on every exit path of an attempt that
    /// does not commit, so that an abandoned attempt never leaves a stripe
    /// locked.
    pub fn release_locks(&mut self, mem: &mut Memory)
        requires
            old(self).wf(),
            old(mem).wf(),
        ensures
            final(self).wf(),
            final(mem).wf(),
            final(self).locked_list().len() == 0,
            final(self).read_ver == old(self).read_ver,
            final(self).is_abort == old(self).is_abort,
            final(self).wset_entries() == old(self).wset_entries(),
            final(self).rset_elems() == old(self).rset_elems(),
            final(mem).bytes() == old(mem).bytes(),
            final(mem).clock() == old(mem).clock(),
            final(mem).words().len() == old(mem).words().len(),
            forall|s: int|
                0 <= s < NUM_STRIPES ==> final(mem).stripe_version(s) == old(mem).stripe_version(
                    s,
                ),
            forall|s: int|
                0 <= s < NUM_STRIPES ==> (final(mem).stripe_locked(s) == (old(mem).stripe_locked(s)
                    && !covers(old(self).locked_list(), s))),
            forall|s: int|
                0 <= s < NUM_STRIPES && !covers(old(self).locked_list(), s) ==> final(
                    mem).words()[s] == old(mem).words()[s],
    {
        let n = self.locked.len();
        let mut i: usize = 0;
        while i < n
            invariant
                self.wf(),
                mem.wf(),
                n == self.locked_list().len(),
                i <= n,
                *self == *old(self),
                mem.bytes() == old(mem).bytes(),
                mem.clock() == old(mem).clock(),
                mem.words().len() == old(mem).words().len(),
                forall|s: int|
                    0 <= s < NUM_STRIPES ==> mem.stripe_version(s) == old(mem).stripe_version(s),
                forall|s: int|
                    0 <= s < NUM_STRIPES ==> (mem.stripe_locked(s) == (old(mem).stripe_locked(s)
                        && !covers(self.locked_list().take(i as int), s))),
                forall|s: int|
                    0 <= s < NUM_STRIPES && !covers(self.locked_list().take(i as int), s)
                        ==> mem.words()[s] == old(mem).words()[s],
            decreases n - i,
        {
            let a = self.locked[i];
            let ghost prev = *mem;
            mem.unlock_addr(a);
            proof {
                assert forall|s: int|
                    0 <= s < NUM_STRIPES implies (mem.stripe_locked(s) == (old(mem).stripe_locked(s)
                    && !covers(self.locked_list().take(i + 1), s))) by {
                    lemma_covers_take_step(self.locked_list(), i as int, s);
                }
                assert forall|s: int|
                    0 <= s < NUM_STRIPES && !covers(self.locked_list().take(i + 1), s) implies mem
                    .words()[s] == old(mem).words()[s] by {
                    lemma_covers_take_step(self.locked_list(), i as int, s);
                    assert(mem.words()[s] == prev.words()[s]);
                }
            }
            i += 1;
        }
        proof {
            assert(self.locked_list().take(n as int) =~= self.locked_list());
        }
        self.locked.clear();
    }

    /// Whether the stripe at `a` still validates against this attempt's
    /// snapshot: if `a` was written, this attempt itself holds the lock, so
    /// only the version is checked; otherwise the stripe must be unlocked and
    /// not newer than the snapshot.
    pub open spec fn addr_validates(self, m: Memory, a: usize) -> bool {
        if self.wset().dom().contains(a) {
            m.stripe_version(Memory::stripe_of(a)) <= self.read_ver
        } else {
            m.stripe_current(Memory::stripe_of(a), self.read_ver)
        }
    }

    /// Check every address in the read-set against the snapshot, stopping at
    /// the first stripe that a concurrent commit has touched.
    pub fn validate_read_set(&self, mem: &Memory) -> (b: bool)
        requires
            self.wf(),
            mem.wf(),
        ensures
            b == (forall|a: usize| #[trigger] self.rset().contains(a) ==> self.addr_validates(*mem, a)),
    {
        let n = self.read_set.len();
        let mut i: usize = 0;
        while i < n
            invariant
                self.wf(),
                mem.wf(),
                n == self.rset_elems().len(),
                i <= n,
                forall|j: int|
                    0 <= j < i ==> self.addr_validates(*mem, #[trigger] self.rset_elems()[j]),
            decreases n - i,
        {
            let a = self.read_set[i];
            let in_ws = self.ws_find(a).is_some();
            let ok = if in_ws {
                mem.get_addr_ver(a) <= self.read_ver
            } else {
                mem.test_not_modify(a, self.read_ver)
            };
            if !ok {
                proof {
                    assert(self.rset_elems()[i as int] == a);
                    assert(self.rset_elems().contains(a));
                    assert(self.rset().contains(a));
                    assert(!self.addr_validates(*mem, a));
                }
                return false;
            }
            i += 1;
        }
        proof {
            assert forall|a: usize| self.rset().contains(a) implies self.addr_validates(
                *mem,
                a,
            ) by {
                assert(self.rset_elems().contains(a));
                let j = choose|j: int|
                    0 <= j < self.rset_elems().len() && self.rset_elems()[j] == a;
                assert(self.addr_validates(*mem, self.rset_elems()[j]));
            }
        }
        true
    }

    /// Commit: copy every buffered value into its stripe, then publish the
    /// new version for each of them, clearing their locks. Stripes outside
    /// the write-set are untouched, bytes and lock-version words alike.
    pub fn commit(&mut self, mem: &mut Memory, ver: u64)
        requires
            old(self).wf(),
            old(mem).wf(),
            ver <= old(mem).clock(),
        ensures
            final(self).wf(),
            final(mem).wf(),
            final(self).locked_list().len() == 0,
            final(self).read_ver == old(self).read_ver,
            final(self).is_abort == old(self).is_abort,
            final(self).wset_entries() == old(self).wset_entries(),
            final(self).rset_elems() == old(self).rset_elems(),
            final(mem).clock() == old(mem).clock(),
            final(mem).bytes().len() == old(mem).bytes().len(),
            final(mem).words().len() == old(mem).words().len(),
            forall|s: int|
                #![trigger covers_keys(old(self).wset_entries(), s)]
                0 <= s < NUM_STRIPES && !covers_keys(old(self).wset_entries(), s) ==> (final(
                    mem).stripe_bytes(s) == old(mem).stripe_bytes(s) && final(mem).words()[s]
                    == old(mem).words()[s]),
            forall|a: usize|
                #![trigger old(self).wset().dom().contains(a)]
                old(self).wset().dom().contains(a) ==> {
                    &&& final(mem).stripe_bytes(Memory::stripe_of(a)) == old(self).wset()[a]@
                    &&& final(mem).stripe_version(Memory::stripe_of(a)) == ver
                    &&& !final(mem).stripe_locked(Memory::stripe_of(a))
                },
            forall|k: int|
                0 <= k < old(self).wset_entries().len() ==> {
                    let st = Memory::stripe_of(#[trigger] old(self).wset_entries()[k].0);
                    final(mem).stripe_version(st) == ver && !final(mem).stripe_locked(st)
                },
    {
        let n = self.write_set.len();
        let mut i: usize = 0;
        while i < n
            invariant
                self.wf(),
                mem.wf(),
                n == self.wset_entries().len(),
                i <= n,
                *self == *old(self),
                mem.words() == old(mem).words(),
                mem.clock() == old(mem).clock(),
                mem.bytes().len() == old(mem).bytes().len(),
                forall|k: int|
                    0 <= k < i ==> mem.stripe_bytes(
                        Memory::stripe_of(#[trigger] self.wset_entries()[k].0),
                    ) == self.wset_entries()[k].1@,
                forall|s: int|
                    0 <= s < NUM_STRIPES && !covers_keys(self.wset_entries().take(i as int), s)
                        ==> mem.stripe_bytes(s) == old(mem).stripe_bytes(s),
            decreases n - i,
        {
            let (a, v) = self.write_set[i];
            mem.write_stripe(a, &v);
            proof {
                let st = Memory::stripe_of(a);
                assert forall|k: int| 0 <= k < i + 1 implies mem.stripe_bytes(
                    Memory::stripe_of(#[trigger] self.wset_entries()[k].0),
                ) == self.wset_entries()[k].1@ by {
                    if k < i {
                        Memory::lemma_distinct_stripes(self.wset_entries()[k].0, a);
                    }
                }
                assert forall|s: int|
                    0 <= s < NUM_STRIPES && !covers_keys(
                        self.wset_entries().take(i as int + 1),
                        s,
                    ) implies mem.stripe_bytes(s) == old(mem).stripe_bytes(s) by {
                    lemma_covers_keys_take_step(self.wset_entries(), i as int, s);
                }
            }
            i += 1;
        }
        let ghost mid = *mem;
        proof {
            assert(self.wset_entries().take(n as int) =~= self.wset_entries());
        }
        let mut j: usize = 0;
        while j < n
            invariant
                self.wf(),
                mem.wf(),
                n == self.wset_entries().len(),
                j <= n,
                *self == *old(self),
                ver <= mem.clock(),
                mem.bytes() == mid.bytes(),
                mem.clock() == mid.clock(),
                mem.words().len() == mid.words().len(),
                forall|k: int|
                    0 <= k < j ==> {
                        let st = Memory::stripe_of(#[trigger] self.wset_entries()[k].0);
                        mem.stripe_version(st) == ver && !mem.stripe_locked(st)
                    },
                forall|s: int|
                    0 <= s < NUM_STRIPES && !covers_keys(self.wset_entries().take(j as int), s)
                        ==> mem.words()[s] == mid.words()[s],
            decreases n - j,
        {
            let a = self.write_set[j].0;
            mem.set_stripe_version(a, ver);
            proof {
                let st = Memory::stripe_of(a);
                assert forall|k: int| 0 <= k < j + 1 implies {
                    let stk = Memory::stripe_of(#[trigger] self.wset_entries()[k].0);
                    mem.stripe_version(stk) == ver && !mem.stripe_locked(stk)
                } by {
                    if k < j {
                        Memory::lemma_distinct_stripes(self.wset_entries()[k].0, a);
                    }
                }
                assert forall|s: int|
                    0 <= s < NUM_STRIPES && !covers_keys(
                        self.wset_entries().take(j as int + 1),
                        s,
                    ) implies mem.words()[s] == mid.words()[s] by {
                    lemma_covers_keys_take_step(self.wset_entries(), j as int, s);
                }
            }
            j += 1;
        }
        proof {
            assert(self.wset_entries().take(n as int) =~= self.wset_entries());
            // Stripes outside the write-set kept their bytes and words.
            assert forall|s: int|
                0 <= s < NUM_STRIPES && !covers_keys(old(self).wset_entries(), s) implies mem
                .stripe_bytes(s) == old(mem).stripe_bytes(s) && mem.words()[s] == old(
                mem,
            ).words()[s] by {
                assert(mem.stripe_bytes(s) =~= mid.stripe_bytes(s));
            }
            // Every write-set address carries its buffered bytes at the new
            // version, unlocked.
            assert forall|a: usize| old(self).wset().dom().contains(a) implies {
                &&& mem.stripe_bytes(Memory::stripe_of(a)) == old(self).wset()[a]@
                &&& mem.stripe_version(Memory::stripe_of(a)) == ver
                &&& !mem.stripe_locked(Memory::stripe_of(a))
            } by {
                lemma_ws_map_dom(self.wset_entries(), a);
                let k = choose|k: int|
                    0 <= k < self.wset_entries().len() && self.wset_entries()[k].0 == a;
                lemma_ws_map_get(self.wset_entries(), k);
                assert(mem.stripe_bytes(Memory::stripe_of(a)) =~= mid.stripe_bytes(
                    Memory::stripe_of(a),
                ));
            }
        }
        self.locked.clear();
    }
}

} // verus!
