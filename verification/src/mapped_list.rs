//! A map from numeric keys to queues: push at the back of a key's queue, pop
//! from its front, and a key vanishes as soon as its queue empties. The
//! original keeps a hash map of linked lists; here an association list of
//! vectors carries the same map, with the emptiness rule as an invariant.
use vstd::prelude::*;

verus! {

/// The map that a list of keyed queues denotes, later entries winning.
pub open spec fn kl_map<T>(s: Seq<(u64, Vec<T>)>) -> Map<u64, Seq<T>>
    decreases s.len(),
{
    if s.len() == 0 {
        Map::empty()
    } else {
        kl_map(s.drop_last()).insert(s.last().0, s.last().1@)
    }
}

/// Whether some entry carries the key `k`.
pub open spec fn kl_has_key<T>(s: Seq<(u64, Vec<T>)>, k: u64) -> bool {
    exists|i: int| 0 <= i < s.len() && s[i].0 == k
}

/// Every key occurs in at most one entry.
pub open spec fn kl_keys_unique<T>(s: Seq<(u64, Vec<T>)>) -> bool {
    forall|i: int, j: int| 0 <= i < j < s.len() ==> s[i].0 != s[j].0
}

/// No entry carries an empty queue.
pub open spec fn kl_nonempty<T>(s: Seq<(u64, Vec<T>)>) -> bool {
    forall|i: int| 0 <= i < s.len() ==> (#[trigger] s[i].1)@.len() > 0
}

proof fn lemma_kl_map_dom<T>(s: Seq<(u64, Vec<T>)>, k: u64)
    ensures
        kl_map(s).dom().contains(k) <==> kl_has_key(s, k),
    decreases s.len(),
{
    if s.len() > 0 {
        lemma_kl_map_dom(s.drop_last(), k);
        if s.last().0 == k {
            assert(s[s.len() - 1].0 == k);
        } else {
            if kl_has_key(s.drop_last(), k) {
                let i = choose|i: int| 0 <= i < s.drop_last().len() && s.drop_last()[i].0 == k;
                assert(s[i].0 == k);
            }
            if kl_has_key(s, k) {
                let i = choose|i: int| 0 <= i < s.len() && s[i].0 == k;
                assert(i < s.len() - 1);
                assert(s.drop_last()[i].0 == k);
            }
        }
    }
}

proof fn lemma_kl_map_get<T>(s: Seq<(u64, Vec<T>)>, i: int)
    requires
        kl_keys_unique(s),
        0 <= i < s.len(),
    ensures
        kl_map(s).dom().contains(s[i].0),
        kl_map(s)[s[i].0] == s[i].1@,
    decreases s.len(),
{
    if i == s.len() - 1 {
        lemma_kl_map_dom(s, s[i].0);
    } else {
        assert(s.drop_last()[i] == s[i]);
        lemma_kl_map_get(s.drop_last(), i);
        assert(s.last().0 != s[i].0);
    }
}

proof fn lemma_kl_map_push<T>(s: Seq<(u64, Vec<T>)>, k: u64, v: Vec<T>)
    ensures
        kl_map(s.push((k, v))) == kl_map(s).insert(k, v@),
{
    assert(s.push((k, v)).drop_last() =~= s);
    assert(s.push((k, v)).last() == (k, v));
}

proof fn lemma_kl_map_update<T>(s: Seq<(u64, Vec<T>)>, i: int, v: Vec<T>)
    requires
        kl_keys_unique(s),
        0 <= i < s.len(),
    ensures
        kl_map(s.update(i, (s[i].0, v))) == kl_map(s).insert(s[i].0, v@),
    decreases s.len(),
{
    let k = s[i].0;
    let t = s.update(i, (k, v));
    if i == s.len() - 1 {
        assert(t.drop_last() =~= s.drop_last());
        assert(t.last() == (k, v));
        assert(kl_map(s.drop_last()).insert(k, s.last().1@).insert(k, v@) =~= kl_map(
            s.drop_last(),
        ).insert(k, v@));
    } else {
        assert(t.drop_last() =~= s.drop_last().update(i, (k, v)));
        assert(s.drop_last()[i] == s[i]);
        lemma_kl_map_update(s.drop_last(), i, v);
        let e = s.last();
        assert(t.last() == e);
        assert(e.0 != k);
        assert(kl_map(s.drop_last()).insert(k, v@).insert(e.0, e.1@) =~= kl_map(
            s.drop_last(),
        ).insert(e.0, e.1@).insert(k, v@));
    }
}

proof fn lemma_kl_map_remove<T>(s: Seq<(u64, Vec<T>)>, i: int)
    requires
        kl_keys_unique(s),
        0 <= i < s.len(),
    ensures
        kl_map(s.remove(i)) == kl_map(s).remove(s[i].0),
    decreases s.len(),
{
    let k = s[i].0;
    if i == s.len() - 1 {
        assert(s.remove(i) =~= s.drop_last());
        assert(!kl_has_key(s.drop_last(), k)) by {
            if kl_has_key(s.drop_last(), k) {
                let j = choose|j: int| 0 <= j < s.drop_last().len() && s.drop_last()[j].0 == k;
                assert(s[j].0 == k);
            }
        }
        lemma_kl_map_dom(s.drop_last(), k);
        assert(kl_map(s.drop_last()).insert(k, s.last().1@).remove(k) =~= kl_map(s.drop_last()));
    } else {
        let e = s.last();
        assert(s.remove(i).drop_last() =~= s.drop_last().remove(i));
        assert(s.remove(i).last() == e);
        assert(s.drop_last()[i] == s[i]);
        lemma_kl_map_remove(s.drop_last(), i);
        assert(e.0 != k);
        assert(kl_map(s.drop_last()).remove(k).insert(e.0, e.1@) =~= kl_map(
            s.drop_last(),
        ).insert(e.0, e.1@).remove(k));
    }
}

/// A map from keys to first-in-first-out queues. A key is present exactly
/// while its queue is non-empty.
pub struct MappedList<T> {
    entries: Vec<(u64, Vec<T>)>,
}

impl<T> MappedList<T> {
    /// The entries as stored.
    pub closed spec fn entries_view(self) -> Seq<(u64, Vec<T>)> {
        self.entries@
    }

    /// The map of queues this value denotes.
    pub open spec fn lists(self) -> Map<u64, Seq<T>> {
        kl_map(self.entries_view())
    }

    /// Keys are unique and no stored queue is empty.
    pub open spec fn wf(self) -> bool {
        &&& kl_keys_unique(self.entries_view())
        &&& kl_nonempty(self.entries_view())
    }

    /// An empty map of queues.
    pub fn new() -> (m: MappedList<T>)
        ensures
            m.wf(),
            m.lists() == Map::<u64, Seq<T>>::empty(),
    {
        MappedList { entries: Vec::new() }
    }

    /// Find the entry for `key`, if any.
    fn find(&self, key: u64) -> (r: Option<usize>)
        requires
            self.wf(),
        ensures
            match r {
                Some(i) => {
                    &&& 0 <= i < self.entries_view().len()
                    &&& self.entries_view()[i as int].0 == key
                    &&& self.lists().dom().contains(key)
                    &&& self.lists()[key] == self.entries_view()[i as int].1@
                },
                None => {
                    &&& !kl_has_key(self.entries_view(), key)
                    &&& !self.lists().dom().contains(key)
                },
            },
    {
        let n = self.entries.len();
        let mut i: usize = 0;
        while i < n
            invariant
                self.wf(),
                n == self.entries_view().len(),
                i <= n,
                forall|j: int| 0 <= j < i ==> self.entries_view()[j].0 != key,
            decreases n - i,
        {
            if self.entries[i].0 == key {
                proof {
                    lemma_kl_map_get(self.entries_view(), i as int);
                }
                return Some(i);
            }
            i += 1;
        }
        proof {
            lemma_kl_map_dom(self.entries_view(), key);
        }
        None
    }

    /// Append `value` at the back of `key`'s queue, creating the queue if the
    /// key is new.
    pub fn push_back(&mut self, key: u64, value: T)
        requires
            old(self).wf(),
        ensures
            final(self).wf(),
            final(self).lists() == old(self).lists().insert(
                key,
                (if old(self).lists().dom().contains(key) {
                    old(self).lists()[key]
                } else {
                    Seq::<T>::empty()
                }).push(value),
            ),
    {
        match self.find(key) {
            Some(i) => {
                let ghost s0 = self.entries_view();
                let ghost q0 = self.entries_view()[i as int].1;
                self.entries[i].1.push(value);
                proof {
                    assert(self.entries_view() =~= s0.update(i as int, (key, s0[i as int].1)).update(
                        i as int,
                        (key, self.entries_view()[i as int].1),
                    ));
                    assert(self.entries_view() =~= s0.update(
                        i as int,
                        (key, self.entries_view()[i as int].1),
                    ));
                    assert(self.entries_view()[i as int].1@ == q0@.push(value));
                    lemma_kl_map_update(s0, i as int, self.entries_view()[i as int].1);
                    assert forall|p: int, q: int|
                        0 <= p < q < self.entries_view().len() implies self.entries_view()[p].0
                        != self.entries_view()[q].0 by {
                        assert(s0[p].0 != s0[q].0);
                        assert(self.entries_view()[p].0 == s0[p].0);
                        assert(self.entries_view()[q].0 == s0[q].0);
                    }
                    assert forall|p: int|
                        0 <= p < self.entries_view().len() implies (
                        #[trigger] self.entries_view()[p].1)@.len() > 0 by {
                        if p != i {
                            assert(self.entries_view()[p] == s0[p]);
                        }
                        assert(s0[p].1@.len() > 0);
                    }
                }
            },
            None => {
                let ghost s0 = self.entries_view();
                let mut q: Vec<T> = Vec::new();
                q.push(value);
                proof {
                    lemma_kl_map_push(s0, key, q);
                }
                self.entries.push((key, q));
                proof {
                    assert forall|p: int, r: int|
                        0 <= p < r < self.entries_view().len() implies self.entries_view()[p].0
                        != self.entries_view()[r].0 by {
                        if r < s0.len() {
                            assert(self.entries_view()[p] == s0[p]);
                            assert(self.entries_view()[r] == s0[r]);
                        } else {
                            assert(self.entries_view()[p] == s0[p]);
                            assert(s0[p].0 != key);
                        }
                    }
                    assert forall|p: int|
                        0 <= p < self.entries_view().len() implies (
                        #[trigger] self.entries_view()[p].1)@.len() > 0 by {
                        if p < s0.len() {
                            assert(self.entries_view()[p] == s0[p]);
                            assert(s0[p].1@.len() > 0);
                        }
                    }
                }
            },
        }
    }

    /// Take the front of `key`'s queue, removing the key when its queue
    /// empties. Returns nothing iff the key is absent.
    pub fn pop_front(&mut self, key: u64) -> (r: Option<T>)
        requires
            old(self).wf(),
        ensures
            final(self).wf(),
            !old(self).lists().dom().contains(key) ==> r is None && final(self).lists() == old(
                self,
            ).lists(),
            old(self).lists().dom().contains(key) ==> {
                &&& (r matches Some(v) && v == old(self).lists()[key][0])
                &&& (old(self).lists()[key].len() == 1 ==> final(self).lists() == old(
                    self,
                ).lists().remove(key))
                &&& (old(self).lists()[key].len() > 1 ==> final(self).lists() == old(
                    self,
                ).lists().insert(key, old(self).lists()[key].drop_first()))
            },
    {
        match self.find(key) {
            Some(i) => {
                let ghost s0 = self.entries_view();
                if self.entries[i].1.len() == 1 {
                    proof {
                        lemma_kl_map_remove(s0, i as int);
                    }
                    let (_, mut q) = self.entries.remove(i);
                    let v = q.remove(0);
                    proof {
                        assert forall|p: int, r: int|
                            0 <= p < r < self.entries_view().len() implies self.entries_view()[p].0
                            != self.entries_view()[r].0 by {
                            assert(self.entries_view() == s0.remove(i as int));
                            if p < i {
                                assert(self.entries_view()[p] == s0[p]);
                            } else {
                                assert(self.entries_view()[p] == s0[p + 1]);
                            }
                            if r < i {
                                assert(self.entries_view()[r] == s0[r]);
                            } else {
                                assert(self.entries_view()[r] == s0[r + 1]);
                            }
                        }
                        assert forall|p: int|
                            0 <= p < self.entries_view().len() implies (
                            #[trigger] self.entries_view()[p].1)@.len() > 0 by {
                            if p < i {
                                assert(self.entries_view()[p] == s0[p]);
                                assert(s0[p].1@.len() > 0);
                            } else {
                                assert(self.entries_view()[p] == s0[p + 1]);
                                assert(s0[p + 1].1@.len() > 0);
                            }
                        }
                    }
                    Some(v)
                } else {
                    let ghost q0 = self.entries_view()[i as int].1;
                    let v = self.entries[i].1.remove(0);
                    proof {
                        assert(self.entries_view() =~= s0.update(
                            i as int,
                            (key, self.entries_view()[i as int].1),
                        ));
                        assert(self.entries_view()[i as int].1@ == q0@.drop_first());
                        lemma_kl_map_update(s0, i as int, self.entries_view()[i as int].1);
                        assert forall|p: int, r: int|
                            0 <= p < r < self.entries_view().len() implies self.entries_view()[p].0
                            != self.entries_view()[r].0 by {
                            assert(s0[p].0 != s0[r].0);
                            assert(self.entries_view()[p].0 == s0[p].0);
                            assert(self.entries_view()[r].0 == s0[r].0);
                        }
                        assert forall|p: int|
                            0 <= p < self.entries_view().len() implies (
                            #[trigger] self.entries_view()[p].1)@.len() > 0 by {
                            if p != i {
                                assert(self.entries_view()[p] == s0[p]);
                                assert(s0[p].1@.len() > 0);
                            }
                        }
                    }
                    Some(v)
                }
            },
            None => None,
        }
    }

    /// Drop every queue.
    pub fn clear(&mut self)
        ensures
            final(self).wf(),
            final(self).lists() == Map::<u64, Seq<T>>::empty(),
    {
        self.entries.clear();
    }
}

} // verus!
