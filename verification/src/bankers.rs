//! A banker's-algorithm resource manager: each thread declares in advance the
//! most it will ever hold of each resource, and a unit is granted only if the
//! resulting state is safe, that is, some order exists in which every thread
//! can still obtain its declared maximum and finish. The concurrent original
//! guards the state with a mutex; the state machine itself is modelled here,
//! and the safety check is proved equivalent to the existence of such an
//! order.
use vstd::prelude::*;

verus! {

/// The elements of a vector of counts, as unbounded integers.
pub open spec fn to_ints(s: Seq<usize>) -> Seq<int> {
    Seq::new(s.len(), |j: int| s[j] as int)
}

/// The rows of a matrix of counts, as unbounded integers.
pub open spec fn row_ints<const NRES: usize>(r: [usize; NRES]) -> Seq<int> {
    Seq::new(NRES as nat, |j: int| r@[j] as int)
}

/// A matrix of counts, as unbounded integers.
pub open spec fn mat_ints<const NRES: usize>(m: Seq<[usize; NRES]>) -> Seq<Seq<int>> {
    Seq::new(m.len(), |i: int| row_ints(m[i]))
}

/// Every entry of the first `n` rows and `w` columns is non-negative.
pub open spec fn mat_nonneg(a: Seq<Seq<int>>, n: int, w: int) -> bool {
    forall|i: int, j: int| 0 <= i < n && 0 <= j < w ==> #[trigger] a[i][j] >= 0
}

/// Thread `i` could finish right now: for every resource its remaining need,
/// declared maximum minus current allocation, fits in the free pool `work`.
pub open spec fn can_finish(work: Seq<int>, alloc: Seq<Seq<int>>, maxm: Seq<Seq<int>>, i: int) -> bool {
    forall|j: int| 0 <= j < work.len() ==> maxm[i][j] - alloc[i][j] <= #[trigger] work[j]
}

/// The free pool after thread `i` finishes and returns everything it holds.
pub open spec fn work_after(work: Seq<int>, alloc: Seq<Seq<int>>, i: int) -> Seq<int> {
    Seq::new(work.len(), |j: int| work[j] + alloc[i][j])
}

/// Every thread is marked finished.
pub open spec fn all_finished(fin: Seq<bool>) -> bool {
    forall|i: int| 0 <= i < fin.len() ==> fin[i]
}

/// How many threads are not finished yet.
pub open spec fn count_unfinished(fin: Seq<bool>) -> nat
    decreases fin.len(),
{
    if fin.len() == 0 {
        0
    } else {
        count_unfinished(fin.drop_last()) + if fin.last() {
            0nat
        } else {
            1nat
        }
    }
}

/// Within `n` more steps, every unfinished thread can be finished in some
/// order, each step handing a finishing thread's whole allocation back to the
/// pool.
pub open spec fn schedulable_n(
    work: Seq<int>,
    alloc: Seq<Seq<int>>,
    maxm: Seq<Seq<int>>,
    fin: Seq<bool>,
    n: nat,
) -> bool
    decreases n,
{
    all_finished(fin) || (n > 0 && exists|i: int|
        {
            &&& 0 <= i < fin.len()
            &&& !fin[i]
            &&& #[trigger] can_finish(work, alloc, maxm, i)
            &&& schedulable_n(
                work_after(work, alloc, i),
                alloc,
                maxm,
                fin.update(i, true),
                (n - 1) as nat,
            )
        })
}

/// The safety predicate of the banker's algorithm: some order finishes every
/// unfinished thread. Finishing them one at a time, the order takes exactly
/// one step per unfinished thread.
pub open spec fn schedulable(
    work: Seq<int>,
    alloc: Seq<Seq<int>>,
    maxm: Seq<Seq<int>>,
    fin: Seq<bool>,
) -> bool {
    schedulable_n(work, alloc, maxm, fin, count_unfinished(fin))
}

proof fn lemma_count_unfinished_update(fin: Seq<bool>, i: int)
    requires
        0 <= i < fin.len(),
        !fin[i],
    ensures
        count_unfinished(fin.update(i, true)) == count_unfinished(fin) - 1,
    decreases fin.len(),
{
    let u = fin.update(i, true);
    if i == fin.len() - 1 {
        assert(u.drop_last() =~= fin.drop_last());
        assert(u.last());
    } else {
        assert(u.drop_last() =~= fin.drop_last().update(i, true));
        assert(u.last() == fin.last());
        assert(fin.drop_last()[i] == fin[i]);
        lemma_count_unfinished_update(fin.drop_last(), i);
    }
}

proof fn lemma_schedulable_n_mono(
    work: Seq<int>,
    alloc: Seq<Seq<int>>,
    maxm: Seq<Seq<int>>,
    fin: Seq<bool>,
    n1: nat,
    n2: nat,
)
    requires
        schedulable_n(work, alloc, maxm, fin, n1),
        n1 <= n2,
    ensures
        schedulable_n(work, alloc, maxm, fin, n2),
    decreases n1,
{
    if !all_finished(fin) {
        let i = choose|i: int|
            {
                &&& 0 <= i < fin.len()
                &&& !fin[i]
                &&& #[trigger] can_finish(work, alloc, maxm, i)
                &&& schedulable_n(
                    work_after(work, alloc, i),
                    alloc,
                    maxm,
                    fin.update(i, true),
                    (n1 - 1) as nat,
                )
            };
        lemma_schedulable_n_mono(
            work_after(work, alloc, i),
            alloc,
            maxm,
            fin.update(i, true),
            (n1 - 1) as nat,
            (n2 - 1) as nat,
        );
    }
}

proof fn lemma_can_finish_mono(
    w1: Seq<int>,
    w2: Seq<int>,
    alloc: Seq<Seq<int>>,
    maxm: Seq<Seq<int>>,
    i: int,
)
    requires
        w1.len() == w2.len(),
        forall|j: int| 0 <= j < w1.len() ==> w1[j] <= #[trigger] w2[j],
        can_finish(w1, alloc, maxm, i),
    ensures
        can_finish(w2, alloc, maxm, i),
{
}

/// The exchange argument behind the greedy safety check: if the state is
/// schedulable and thread `i` can finish right now, then finishing `i` first
/// keeps it schedulable, and one step of the budget is spent.
proof fn lemma_finish_now(
    work: Seq<int>,
    alloc: Seq<Seq<int>>,
    maxm: Seq<Seq<int>>,
    fin: Seq<bool>,
    i: int,
    n: nat,
)
    requires
        schedulable_n(work, alloc, maxm, fin, n),
        0 <= i < fin.len(),
        !fin[i],
        can_finish(work, alloc, maxm, i),
        alloc.len() == fin.len(),
        forall|k: int| 0 <= k < alloc.len() ==> (#[trigger] alloc[k]).len() == work.len(),
        mat_nonneg(alloc, fin.len() as int, work.len() as int),
    ensures
        n > 0,
        schedulable_n(work_after(work, alloc, i), alloc, maxm, fin.update(i, true), (n - 1) as nat),
    decreases n,
{
    assert(!all_finished(fin));
    let j = choose|j: int|
        {
            &&& 0 <= j < fin.len()
            &&& !fin[j]
            &&& #[trigger] can_finish(work, alloc, maxm, j)
            &&& schedulable_n(
                work_after(work, alloc, j),
                alloc,
                maxm,
                fin.update(j, true),
                (n - 1) as nat,
            )
        };
    if j == i {
        // The witnessed order already finishes `i` first.
    } else {
        let wj = work_after(work, alloc, j);
        let wi = work_after(work, alloc, i);
        // `i` can still finish once `j` has handed its allocation back.
        assert(forall|k: int| 0 <= k < work.len() ==> work[k] <= #[trigger] wj[k]);
        lemma_can_finish_mono(work, wj, alloc, maxm, i);
        assert(fin.update(j, true)[i] == fin[i]);
        lemma_finish_now(wj, alloc, maxm, fin.update(j, true), i, (n - 1) as nat);
        // Exchange the two steps: after `i`, thread `j` can still finish, and
        // the remaining order is the same.
        assert(forall|k: int| 0 <= k < work.len() ==> work[k] <= #[trigger] wi[k]);
        lemma_can_finish_mono(work, wi, alloc, maxm, j);
        assert(work_after(wj, alloc, i) =~= work_after(wi, alloc, j));
        assert(fin.update(j, true).update(i, true) =~= fin.update(i, true).update(j, true));
        assert(schedulable_n(
            work_after(wi, alloc, j),
            alloc,
            maxm,
            fin.update(i, true).update(j, true),
            (n - 2) as nat,
        ));
        assert(!fin.update(i, true)[j]);
        assert(schedulable_n(work_after(work, alloc, i), alloc, maxm, fin.update(i, true), (n
            - 1) as nat));
    }
}

/// What a column of the allocation matrix sums to over the first `n` rows.
pub open spec fn col_total(a: Seq<Seq<int>>, j: int, n: int) -> int
    decreases n,
{
    if n <= 0 {
        0
    } else {
        col_total(a, j, n - 1) + a[n - 1][j]
    }
}

/// What a column sums to over the finished rows among the first `n`.
pub open spec fn col_done(a: Seq<Seq<int>>, fin: Seq<bool>, j: int, n: int) -> int
    decreases n,
{
    if n <= 0 {
        0
    } else {
        col_done(a, fin, j, n - 1) + if fin[n - 1] {
            a[n - 1][j]
        } else {
            0
        }
    }
}

proof fn lemma_col_done_le_total(a: Seq<Seq<int>>, fin: Seq<bool>, j: int, n: int)
    requires
        forall|i: int| 0 <= i < n ==> #[trigger] a[i][j] >= 0,
    ensures
        0 <= col_done(a, fin, j, n) <= col_total(a, j, n),
    decreases n,
{
    if n > 0 {
        lemma_col_done_le_total(a, fin, j, n - 1);
    }
}

proof fn lemma_col_done_update(a: Seq<Seq<int>>, fin: Seq<bool>, j: int, i: int, n: int)
    requires
        0 <= i < n,
        n <= fin.len(),
        !fin[i],
    ensures
        col_done(a, fin.update(i, true), j, n) == col_done(a, fin, j, n) + a[i][j],
    decreases n,
{
    let u = fin.update(i, true);
    if i == n - 1 {
        assert(col_done(a, u, j, n - 1) == col_done(a, fin, j, n - 1)) by {
            lemma_col_done_same(a, fin, u, j, n - 1);
        }
    } else {
        lemma_col_done_update(a, fin, j, i, n - 1);
        assert(u[n - 1] == fin[n - 1]);
    }
}

proof fn lemma_col_done_same(a: Seq<Seq<int>>, f1: Seq<bool>, f2: Seq<bool>, j: int, n: int)
    requires
        n <= f1.len(),
        n <= f2.len(),
        forall|k: int| 0 <= k < n ==> f1[k] == f2[k],
    ensures
        col_done(a, f1, j, n) == col_done(a, f2, j, n),
    decreases n,
{
    if n > 0 {
        lemma_col_done_same(a, f1, f2, j, n - 1);
    }
}

proof fn lemma_col_total_nonneg(a: Seq<Seq<int>>, j: int, n: int)
    requires
        forall|k: int| 0 <= k < n ==> #[trigger] a[k][j] >= 0,
    ensures
        col_total(a, j, n) >= 0,
    decreases n,
{
    if n > 0 {
        lemma_col_total_nonneg(a, j, n - 1);
    }
}

proof fn lemma_col_total_lower(a: Seq<Seq<int>>, j: int, i: int, n: int)
    requires
        0 <= i < n,
        forall|k: int| 0 <= k < n ==> #[trigger] a[k][j] >= 0,
    ensures
        a[i][j] <= col_total(a, j, n),
    decreases n,
{
    if i < n - 1 {
        lemma_col_total_lower(a, j, i, n - 1);
        assert(a[n - 1][j] >= 0);
    } else {
        lemma_col_total_nonneg(a, j, n - 1);
    }
}

proof fn lemma_col_total_update_row(a: Seq<Seq<int>>, r: Seq<int>, i: int, j: int, n: int)
    requires
        0 <= i < n,
        n <= a.len(),
    ensures
        col_total(a.update(i, r), j, n) == col_total(a, j, n) + r[j] - a[i][j],
    decreases n,
{
    let u = a.update(i, r);
    if i == n - 1 {
        assert(col_total(u, j, n - 1) == col_total(a, j, n - 1)) by {
            lemma_col_total_same(u, a, j, n - 1);
        }
    } else {
        lemma_col_total_update_row(a, r, i, j, n - 1);
        assert(u[n - 1] == a[n - 1]);
    }
}

proof fn lemma_col_total_same(a1: Seq<Seq<int>>, a2: Seq<Seq<int>>, j: int, n: int)
    requires
        forall|k: int| 0 <= k < n ==> #[trigger] a1[k] == a2[k],
    ensures
        col_total(a1, j, n) == col_total(a2, j, n),
    decreases n,
{
    if n > 0 {
        lemma_col_total_same(a1, a2, j, n - 1);
    }
}

/// No thread finished yet.
pub open spec fn none_finished(n: nat) -> Seq<bool> {
    Seq::new(n, |i: int| false)
}

/// Every allocation is within its declared maximum.
pub open spec fn within_max(alloc: Seq<Seq<int>>, maxm: Seq<Seq<int>>, n: int, w: int) -> bool {
    forall|i: int, j: int| 0 <= i < n && 0 <= j < w ==> #[trigger] alloc[i][j] <= maxm[i][j]
}

/// Free plus allocated units of every resource fit in a machine word, so
/// handing allocations back to the pool can never overflow.
pub open spec fn conserved(avail: Seq<int>, alloc: Seq<Seq<int>>, w: int, n: int) -> bool {
    forall|j: int| 0 <= j < w ==> avail[j] + col_total(alloc, j, n) <= usize::MAX
}

/// The mutable state: free units per resource, plus current allocation and
/// declared maximum per thread and resource.
struct Resource<const NRES: usize, const NTH: usize> {
    available: [usize; NRES],
    allocation: [[usize; NRES]; NTH],
    max: [[usize; NRES]; NTH],
}

impl<const NRES: usize, const NTH: usize> Resource<NRES, NTH> {
    spec fn avail_ints(self) -> Seq<int> {
        to_ints(self.available@)
    }

    spec fn alloc_ints(self) -> Seq<Seq<int>> {
        mat_ints(self.allocation@)
    }

    spec fn max_ints(self) -> Seq<Seq<int>> {
        mat_ints(self.max@)
    }

    spec fn wf(self) -> bool {
        &&& within_max(self.alloc_ints(), self.max_ints(), NTH as int, NRES as int)
        &&& conserved(self.avail_ints(), self.alloc_ints(), NRES as int, NTH as int)
    }

    /// The state is safe: some order finishes every thread.
    spec fn safe(self) -> bool {
        schedulable(self.avail_ints(), self.alloc_ints(), self.max_ints(), none_finished(NTH as nat))
    }

    fn new(available: [usize; NRES], max: [[usize; NRES]; NTH]) -> (r: Self)
        ensures
            r.wf(),
            r.avail_ints() == to_ints(available@),
            r.max_ints() == mat_ints(max@),
            forall|i: int, j: int| 0 <= i < NTH && 0 <= j < NRES ==> r.alloc_ints()[i][j] == 0,
    {
        let r = Resource { available, allocation: [[0; NRES]; NTH], max };
        proof {
            assert forall|i: int, j: int|
                0 <= i < NTH && 0 <= j < NRES implies r.alloc_ints()[i][j] == 0 by {
                assert(r.allocation@[i] == [0usize; NRES]);
                assert(r.allocation@[i]@[j] == 0);
            }
            assert forall|j: int| 0 <= j < NRES implies r.avail_ints()[j] + col_total(
                r.alloc_ints(),
                j,
                NTH as int,
            ) <= usize::MAX by {
                lemma_col_total_zero(r.alloc_ints(), j, NTH as int);
            }
        }
        r
    }

    /// One greedy pass: a thread not yet finished whose whole remaining need
    /// fits in `work`, if there is one.
    #[verifier::loop_isolation(false)]
    fn find_finishable(&self, work: &[usize; NRES], finish: &[bool; NTH]) -> (r: Option<usize>)
        requires
            self.wf(),
        ensures
            match r {
                Some(i) => {
                    &&& i < NTH
                    &&& !finish@[i as int]
                    &&& can_finish(to_ints(work@), self.alloc_ints(), self.max_ints(), i as int)
                },
                None => forall|k: int|
                    0 <= k < NTH ==> finish@[k] || !can_finish(
                        to_ints(work@),
                        self.alloc_ints(),
                        self.max_ints(),
                        k,
                    ),
            },
    {
        let mut i: usize = 0;
        while i < NTH
            invariant
                i <= NTH,
                forall|k: int|
                    0 <= k < i ==> finish@[k] || !can_finish(
                        to_ints(work@),
                        self.alloc_ints(),
                        self.max_ints(),
                        k,
                    ),
            decreases NTH - i,
        {
            if !finish[i] {
                let mut ok = true;
                let mut j: usize = 0;
                while j < NRES
                    invariant
                        i < NTH,
                        j <= NRES,
                        ok == (forall|l: int|
                            0 <= l < j ==> self.max_ints()[i as int][l] - self.alloc_ints()[
                                i as int][l] <= #[trigger] to_ints(work@)[l]),
                    decreases NRES - j,
                {
                    proof {
                        assert(self.alloc_ints()[i as int][j as int] == self.allocation@[
                            i as int]@[j as int] as int);
                        assert(self.max_ints()[i as int][j as int] == self.max@[i as int]@[
                            j as int] as int);
                        assert(self.alloc_ints()[i as int][j as int] <= self.max_ints()[i as int][
                            j as int]);
                    }
                    let need = self.max[i][j] - self.allocation[i][j];
                    let ghost ok_before = ok;
                    if work[j] < need {
                        ok = false;
                    }
                    proof {
                        if ok_before && work@[j as int] >= need {
                            assert forall|l: int|
                                0 <= l < j + 1 implies self.max_ints()[i as int][l]
                                - self.alloc_ints()[i as int][l] <= #[trigger] to_ints(work@)[l]
                            by {
                                if l < j {
                                    assert(self.max_ints()[i as int][l] - self.alloc_ints()[
                                        i as int][l] <= to_ints(work@)[l]);
                                }
                            }
                        } else {
                            if ok_before {
                                assert(self.max_ints()[i as int][j as int] - self.alloc_ints()[
                                    i as int][j as int] > to_ints(work@)[j as int]);
                            }
                            assert(!(forall|l: int|
                                0 <= l < j + 1 ==> self.max_ints()[i as int][l] - self.alloc_ints()[
                                    i as int][l] <= #[trigger] to_ints(work@)[l]));
                        }
                    }
                    j += 1;
                }
                if ok {
                    proof {
                        assert(to_ints(work@).len() == NRES);
                        assert(can_finish(
                            to_ints(work@),
                            self.alloc_ints(),
                            self.max_ints(),
                            i as int,
                        ));
                    }
                    return Some(i);
                }
            }
            i += 1;
        }
        None
    }

    /// The banker's safety check: greedily finish any thread whose remaining
    /// need fits in the free pool, handing its allocation back, until either
    /// every thread finished or none can. Greedy is complete here: finishing
    /// a finishable thread early never hurts, so the check decides exactly
    /// whether a finishing order exists.
    #[verifier::loop_isolation(false)]
    fn is_safe(&self) -> (b: bool)
        requires
            self.wf(),
        ensures
            b == self.safe(),
    {
        let ghost a = self.alloc_ints();
        let ghost mx = self.max_ints();
        let ghost w0 = self.avail_ints();
        let mut finish = [false; NTH];
        let mut work = self.available;
        proof {
            assert(finish@ =~= none_finished(NTH as nat));
            assert(to_ints(work@) =~= w0);
            assert forall|j: int| 0 <= j < NRES implies to_ints(work@)[j] == w0[j] + col_done(
                a,
                finish@,
                j,
                NTH as int,
            ) by {
                lemma_col_done_none(a, finish@, j, NTH as int);
            }
        }
        loop
            invariant
                finish@.len() == NTH,
                work@.len() == NRES,
                forall|j: int|
                    0 <= j < NRES ==> to_ints(work@)[j] == w0[j] + col_done(
                        a,
                        finish@,
                        j,
                        NTH as int,
                    ),
                schedulable(w0, a, mx, none_finished(NTH as nat)) <==> schedulable_n(
                    to_ints(work@),
                    a,
                    mx,
                    finish@,
                    count_unfinished(finish@),
                ),
            decreases count_unfinished(finish@),
        {
            if all_done(&finish) {
                proof {
                    assert(schedulable_n(
                        to_ints(work@),
                        a,
                        mx,
                        finish@,
                        count_unfinished(finish@),
                    ));
                }
                return true;
            }
            match self.find_finishable(&work, &finish) {
                Some(i) => {
                    let ghost fin0 = finish@;
                    let ghost wg0 = to_ints(work@);
                    proof {
                        lemma_mat_ints_nonneg(self.allocation@);
                        lemma_count_unfinished_update(fin0, i as int);
                    }
                    let mut j: usize = 0;
                    while j < NRES
                        invariant
                            i < NTH,
                            !fin0[i as int],
                            j <= NRES,
                            work@.len() == NRES,
                            finish@ == fin0,
                            forall|k: int| j <= k < NRES ==> to_ints(work@)[k] == wg0[k],
                            forall|k: int|
                                0 <= k < j ==> to_ints(work@)[k] == wg0[k] + a[i as int][k],
                        decreases NRES - j,
                    {
                        proof {
                            assert(to_ints(work@)[j as int] == wg0[j as int]);
                            assert(wg0[j as int] == w0[j as int] + col_done(
                                a,
                                fin0,
                                j as int,
                                NTH as int,
                            ));
                            assert forall|k: int| 0 <= k < NTH implies #[trigger] a[k][j as int]
                                >= 0 by {
                                assert(a[k][j as int] == self.allocation@[k]@[j as int] as int);
                            }
                            lemma_col_done_update(a, fin0, j as int, i as int, NTH as int);
                            lemma_col_done_le_total(
                                a,
                                fin0.update(i as int, true),
                                j as int,
                                NTH as int,
                            );
                            assert(a[i as int][j as int] == self.allocation@[i as int]@[
                                j as int] as int);
                            assert(wg0[j as int] + a[i as int][j as int] <= usize::MAX);
                        }
                        let ghost wprev = work@;
                        work[j] = work[j] + self.allocation[i][j];
                        proof {
                            assert forall|k: int| 0 <= k < j + 1 implies to_ints(work@)[k] == wg0[k]
                                + a[i as int][k] by {
                                if k < j {
                                    assert(work@[k] == wprev[k]);
                                    assert(to_ints(wprev)[k] == wg0[k] + a[i as int][k]);
                                }
                            }
                            assert forall|k: int| j + 1 <= k < NRES implies to_ints(work@)[k]
                                == wg0[k] by {
                                assert(work@[k] == wprev[k]);
                                assert(to_ints(wprev)[k] == wg0[k]);
                            }
                        }
                        j += 1;
                    }
                    finish[i] = true;
                    proof {
                        let fin1 = finish@;
                        let wg1 = to_ints(work@);
                        assert(fin1 == fin0.update(i as int, true));
                        assert(wg1 =~= work_after(wg0, a, i as int));
                        // The free-pool characterization moves to the new
                        // finish set.
                        assert forall|k: int| 0 <= k < NRES implies wg1[k] == w0[k] + col_done(
                            a,
                            fin1,
                            k,
                            NTH as int,
                        ) by {
                            lemma_col_done_update(a, fin0, k, i as int, NTH as int);
                        }
                        // The schedulability equivalence moves with it, one
                        // budget step down.
                        let cf0 = count_unfinished(fin0);
                        let cf1 = count_unfinished(fin1);
                        assert(cf1 == cf0 - 1);
                        if schedulable(w0, a, mx, none_finished(NTH as nat)) {
                            assert(schedulable_n(wg0, a, mx, fin0, cf0));
                            assert forall|k: int| 0 <= k < a.len() implies (#[trigger] a[k]).len()
                                == wg0.len() by {}
                            lemma_finish_now(wg0, a, mx, fin0, i as int, cf0);
                            assert(schedulable_n(wg1, a, mx, fin1, cf1));
                        }
                        if schedulable_n(wg1, a, mx, fin1, cf1) {
                            assert(schedulable_n(wg1, a, mx, fin0.update(i as int, true), (cf0
                                - 1) as nat));
                            assert(schedulable_n(wg0, a, mx, fin0, cf0));
                        }
                    }
                },
                None => {
                    proof {
                        let cf = count_unfinished(finish@);
                        if schedulable_n(to_ints(work@), a, mx, finish@, cf) {
                            assert(!all_finished(finish@));
                            let k = choose|k: int|
                                {
                                    &&& 0 <= k < finish@.len()
                                    &&& !finish@[k]
                                    &&& #[trigger] can_finish(to_ints(work@), a, mx, k)
                                    &&& schedulable_n(
                                        work_after(to_ints(work@), a, k),
                                        a,
                                        mx,
                                        finish@.update(k, true),
                                        (cf - 1) as nat,
                                    )
                                };
                            assert(false);
                        }
                    }
                    return false;
                },
            }
        }
    }
}

proof fn lemma_col_total_zero(a: Seq<Seq<int>>, j: int, n: int)
    requires
        forall|i: int| 0 <= i < n ==> #[trigger] a[i][j] == 0,
    ensures
        col_total(a, j, n) == 0,
    decreases n,
{
    if n > 0 {
        lemma_col_total_zero(a, j, n - 1);
    }
}

proof fn lemma_col_done_none(a: Seq<Seq<int>>, fin: Seq<bool>, j: int, n: int)
    requires
        forall|i: int| 0 <= i < n ==> !fin[i],
        n <= fin.len(),
    ensures
        col_done(a, fin, j, n) == 0,
    decreases n,
{
    if n > 0 {
        lemma_col_done_none(a, fin, j, n - 1);
    }
}

proof fn lemma_mat_ints_nonneg<const NRES: usize>(m: Seq<[usize; NRES]>)
    ensures
        mat_nonneg(mat_ints(m), m.len() as int, NRES as int),
{
    assert forall|i: int, j: int|
        0 <= i < m.len() && 0 <= j < NRES implies #[trigger] mat_ints(m)[i][j] >= 0 by {
        assert(mat_ints(m)[i][j] == m[i]@[j] as int);
    }
}

/// Whether every thread is marked finished.
fn all_done<const NTH: usize>(finish: &[bool; NTH]) -> (b: bool)
    ensures
        b == all_finished(finish@),
{
    let mut i: usize = 0;
    while i < NTH
        invariant
            i <= NTH,
            forall|k: int| 0 <= k < i ==> finish@[k],
        decreases NTH - i,
    {
        if !finish[i] {
            return false;
        }
        i += 1;
    }
    true
}

/// The free pool after granting one unit of resource `j`.
pub open spec fn granted_avail(avail: Seq<int>, j: int) -> Seq<int> {
    avail.update(j, avail[j] - 1)
}

/// The allocation after granting one more unit of resource `j` to thread `i`.
pub open spec fn granted_alloc(alloc: Seq<Seq<int>>, i: int, j: int) -> Seq<Seq<int>> {
    alloc.update(i, alloc[i].update(j, alloc[i][j] + 1))
}

/// The free pool after thread `i` returns one unit of resource `j`.
pub open spec fn returned_avail(avail: Seq<int>, j: int) -> Seq<int> {
    avail.update(j, avail[j] + 1)
}

/// The allocation after thread `i` returns one unit of resource `j`.
pub open spec fn returned_alloc(alloc: Seq<Seq<int>>, i: int, j: int) -> Seq<Seq<int>> {
    alloc.update(i, alloc[i].update(j, alloc[i][j] - 1))
}

impl<const NRES: usize, const NTH: usize> Resource<NRES, NTH> {
    /// Grant thread `id` one unit of `resource` if that leaves the state
    /// safe; roll the grant back and refuse otherwise. Out-of-range arguments
    /// and an exhausted resource are refused outright.
    fn take(&mut self, id: usize, resource: usize) -> (r: bool)
        requires
            old(self).wf(),
            (id < NTH && resource < NRES && old(self).avail_ints()[resource as int] > 0)
                ==> old(self).alloc_ints()[id as int][resource as int] < old(self).max_ints()[
                id as int][resource as int],
        ensures
            final(self).wf(),
            final(self).max_ints() == old(self).max_ints(),
            r == (id < NTH && resource < NRES && old(self).avail_ints()[resource as int] > 0
                && schedulable(
                granted_avail(old(self).avail_ints(), resource as int),
                granted_alloc(old(self).alloc_ints(), id as int, resource as int),
                old(self).max_ints(),
                none_finished(NTH as nat),
            )),
            r ==> final(self).avail_ints() == granted_avail(
                old(self).avail_ints(),
                resource as int,
            ) && final(self).alloc_ints() == granted_alloc(
                old(self).alloc_ints(),
                id as int,
                resource as int,
            ),
            !r ==> final(self).avail_ints() == old(self).avail_ints() && final(self).alloc_ints()
                == old(self).alloc_ints(),
    {
        if id >= NTH || resource >= NRES {
            return false;
        }
        if self.available[resource] == 0 {
            proof {
                assert(self.avail_ints()[resource as int] == self.available@[
                    resource as int] as int);
            }
            return false;
        }
        let ghost pre = *self;
        proof {
            assert(pre.alloc_ints()[id as int][resource as int] == pre.allocation@[id as int]@[
                resource as int] as int);
            assert(pre.max_ints()[id as int][resource as int] == pre.max@[id as int]@[
                resource as int] as int);
        }
        let mut row = self.allocation[id];
        row[resource] = row[resource] + 1;
        self.allocation[id] = row;
        self.available[resource] = self.available[resource] - 1;
        proof {
            self.lemma_grant_views(pre, id as int, resource as int);
            self.lemma_grant_wf(pre, id as int, resource as int);
        }
        let ok = self.is_safe();
        if ok {
            true
        } else {
            let ghost mid = *self;
            let mut row2 = self.allocation[id];
            proof {
                assert(row2@[resource as int] == pre.allocation@[id as int]@[resource as int]
                    + 1);
            }
            row2[resource] = row2[resource] - 1;
            self.allocation[id] = row2;
            self.available[resource] = self.available[resource] + 1;
            proof {
                assert(self.avail_ints() =~= pre.avail_ints());
                assert forall|k: int| 0 <= k < NTH implies #[trigger] self.alloc_ints()[k]
                    == pre.alloc_ints()[k] by {
                    if k == id {
                        assert(self.alloc_ints()[k] =~= pre.alloc_ints()[k]);
                    } else {
                        assert(self.allocation@[k] == pre.allocation@[k]);
                    }
                }
                assert(self.alloc_ints() =~= pre.alloc_ints());
                assert(self.max_ints() == pre.max_ints());
            }
            false
        }
    }

    /// Return one unit of `resource` from thread `id` to the pool. Nothing
    /// happens for out-of-range arguments or a thread that holds none.
    fn release(&mut self, id: usize, resource: usize)
        requires
            old(self).wf(),
        ensures
            final(self).wf(),
            final(self).max_ints() == old(self).max_ints(),
            (id >= NTH || resource >= NRES || old(self).alloc_ints()[id as int][resource as int]
                == 0) ==> final(self).avail_ints() == old(self).avail_ints()
                && final(self).alloc_ints() == old(self).alloc_ints(),
            (id < NTH && resource < NRES && old(self).alloc_ints()[id as int][resource as int]
                > 0) ==> final(self).avail_ints() == returned_avail(
                old(self).avail_ints(),
                resource as int,
            ) && final(self).alloc_ints() == returned_alloc(
                old(self).alloc_ints(),
                id as int,
                resource as int,
            ),
    {
        if id >= NTH || resource >= NRES {
            return;
        }
        proof {
            assert(self.alloc_ints()[id as int][resource as int] == self.allocation@[id as int]@[
                resource as int] as int);
        }
        if self.allocation[id][resource] == 0 {
            return;
        }
        let ghost pre = *self;
        proof {
            // Room for the returned unit: what a thread holds is part of the
            // conserved column total.
            lemma_mat_ints_nonneg(pre.allocation@);
            assert forall|k: int| 0 <= k < NTH implies #[trigger] pre.alloc_ints()[k][
                resource as int] >= 0 by {}
            lemma_col_total_lower(pre.alloc_ints(), resource as int, id as int, NTH as int);
            assert(pre.avail_ints()[resource as int] == pre.available@[resource as int] as int);
            assert(pre.available@[resource as int] + 1 <= usize::MAX);
        }
        let mut row = self.allocation[id];
        row[resource] = row[resource] - 1;
        self.allocation[id] = row;
        self.available[resource] = self.available[resource] + 1;
        proof {
            self.lemma_return_views(pre, id as int, resource as int);
            self.lemma_return_wf(pre, id as int, resource as int);
        }
    }

    /// After the grant, the integer views are exactly the granted state.
    proof fn lemma_grant_views(self, pre: Self, id: int, j: int)
        requires
            0 <= id < NTH,
            0 <= j < NRES,
            self.allocation@.len() == pre.allocation@.len(),
            self.allocation@[id]@ == pre.allocation@[id]@.update(
                j,
                ((pre.allocation@[id]@[j] + 1) as usize),
            ),
            forall|k: int| 0 <= k < NTH && k != id ==> self.allocation@[k] == pre.allocation@[k],
            pre.allocation@[id]@[j] + 1 <= usize::MAX,
            self.available@ == pre.available@.update(j, (pre.available@[j] - 1) as usize),
            pre.available@[j] >= 1,
            self.max@ == pre.max@,
        ensures
            self.avail_ints() == granted_avail(pre.avail_ints(), j),
            self.alloc_ints() == granted_alloc(pre.alloc_ints(), id, j),
            self.max_ints() == pre.max_ints(),
    {
        assert(self.avail_ints() =~= granted_avail(pre.avail_ints(), j));
        assert forall|k: int| 0 <= k < NTH implies #[trigger] self.alloc_ints()[k]
            == granted_alloc(pre.alloc_ints(), id, j)[k] by {
            if k == id {
                assert(self.alloc_ints()[k] =~= granted_alloc(pre.alloc_ints(), id, j)[k]);
            } else {
                assert(self.allocation@[k] == pre.allocation@[k]);
                assert(granted_alloc(pre.alloc_ints(), id, j)[k] == pre.alloc_ints()[k]);
            }
        }
        assert(self.alloc_ints() =~= granted_alloc(pre.alloc_ints(), id, j));
    }

    /// The grant preserves well-formedness: the new allocation stays within
    /// the declared maximum, and the moved unit keeps every column total.
    proof fn lemma_grant_wf(self, pre: Self, id: int, j: int)
        requires
            pre.wf(),
            0 <= id < NTH,
            0 <= j < NRES,
            pre.alloc_ints()[id][j] < pre.max_ints()[id][j],
            pre.avail_ints()[j] >= 1,
            self.avail_ints() == granted_avail(pre.avail_ints(), j),
            self.alloc_ints() == granted_alloc(pre.alloc_ints(), id, j),
            self.max_ints() == pre.max_ints(),
        ensures
            self.wf(),
    {
        let a0 = pre.alloc_ints();
        let a1 = self.alloc_ints();
        let r1 = a0[id].update(j, a0[id][j] + 1);
        assert forall|i: int, k: int|
            0 <= i < NTH && 0 <= k < NRES implies #[trigger] a1[i][k] <= self.max_ints()[i][k] by {
            if i == id && k == j {
            } else {
                assert(a0[i][k] <= pre.max_ints()[i][k]);
            }
        }
        assert forall|k: int| 0 <= k < NRES implies self.avail_ints()[k] + col_total(
            a1,
            k,
            NTH as int,
        ) <= usize::MAX by {
            lemma_col_total_update_row(a0, r1, id, k, NTH as int);
            assert(pre.avail_ints()[k] + col_total(a0, k, NTH as int) <= usize::MAX);
        }
    }

    /// After the return, the integer views are exactly the returned state.
    proof fn lemma_return_views(self, pre: Self, id: int, j: int)
        requires
            0 <= id < NTH,
            0 <= j < NRES,
            self.allocation@.len() == pre.allocation@.len(),
            self.allocation@[id]@ == pre.allocation@[id]@.update(
                j,
                ((pre.allocation@[id]@[j] - 1) as usize),
            ),
            forall|k: int| 0 <= k < NTH && k != id ==> self.allocation@[k] == pre.allocation@[k],
            pre.allocation@[id]@[j] >= 1,
            self.available@ == pre.available@.update(j, (pre.available@[j] + 1) as usize),
            pre.available@[j] + 1 <= usize::MAX,
            self.max@ == pre.max@,
        ensures
            self.avail_ints() == returned_avail(pre.avail_ints(), j),
            self.alloc_ints() == returned_alloc(pre.alloc_ints(), id, j),
            self.max_ints() == pre.max_ints(),
    {
        assert(self.avail_ints() =~= returned_avail(pre.avail_ints(), j));
        assert forall|k: int| 0 <= k < NTH implies #[trigger] self.alloc_ints()[k]
            == returned_alloc(pre.alloc_ints(), id, j)[k] by {
            if k == id {
                assert(self.alloc_ints()[k] =~= returned_alloc(pre.alloc_ints(), id, j)[k]);
            } else {
                assert(self.allocation@[k] == pre.allocation@[k]);
                assert(returned_alloc(pre.alloc_ints(), id, j)[k] == pre.alloc_ints()[k]);
            }
        }
        assert(self.alloc_ints() =~= returned_alloc(pre.alloc_ints(), id, j));
    }

    /// The return preserves well-formedness.
    proof fn lemma_return_wf(self, pre: Self, id: int, j: int)
        requires
            pre.wf(),
            0 <= id < NTH,
            0 <= j < NRES,
            pre.alloc_ints()[id][j] >= 1,
            pre.avail_ints()[j] + 1 <= usize::MAX,
            self.avail_ints() == returned_avail(pre.avail_ints(), j),
            self.alloc_ints() == returned_alloc(pre.alloc_ints(), id, j),
            self.max_ints() == pre.max_ints(),
        ensures
            self.wf(),
    {
        let a0 = pre.alloc_ints();
        let a1 = self.alloc_ints();
        let r1 = a0[id].update(j, a0[id][j] - 1);
        assert forall|i: int, k: int|
            0 <= i < NTH && 0 <= k < NRES implies #[trigger] a1[i][k] <= self.max_ints()[i][k] by {
            assert(a0[i][k] <= pre.max_ints()[i][k]);
        }
        assert forall|k: int| 0 <= k < NRES implies self.avail_ints()[k] + col_total(
            a1,
            k,
            NTH as int,
        ) <= usize::MAX by {
            lemma_col_total_update_row(a0, r1, id, k, NTH as int);
            assert(pre.avail_ints()[k] + col_total(a0, k, NTH as int) <= usize::MAX);
        }
    }
}

/// The banker's manager as handed to callers. The concurrent original shares
/// this state behind a mutex; the state machine itself is what is verified,
/// so the wrapper works on an exclusive reference.
pub struct Bankers<const NRES: usize, const NTH: usize> {
    resource: Resource<NRES, NTH>,
}

impl<const NRES: usize, const NTH: usize> Bankers<NRES, NTH> {
    /// The free units of every resource.
    pub closed spec fn avail_ints(self) -> Seq<int> {
        self.resource.avail_ints()
    }

    /// The units every thread currently holds.
    pub closed spec fn alloc_ints(self) -> Seq<Seq<int>> {
        self.resource.alloc_ints()
    }

    /// The declared maxima.
    pub closed spec fn max_ints(self) -> Seq<Seq<int>> {
        self.resource.max_ints()
    }

    /// Allocations are within the maxima and the column totals fit a word.
    pub closed spec fn wf(self) -> bool {
        self.resource.wf()
    }

    /// A fresh manager: the given free units, the given maxima, and nothing
    /// allocated yet.
    pub fn new(available: [usize; NRES], max: [[usize; NRES]; NTH]) -> (b: Bankers<NRES, NTH>)
        ensures
            b.wf(),
            b.avail_ints() == to_ints(available@),
            b.max_ints() == mat_ints(max@),
            forall|i: int, j: int| 0 <= i < NTH && 0 <= j < NRES ==> b.alloc_ints()[i][j] == 0,
    {
        Bankers { resource: Resource::new(available, max) }
    }

    /// Grant thread `id` one unit of `resource` iff that leaves some order in
    /// which every thread can still reach its declared maximum and finish;
    /// refuse, changing nothing, otherwise.
    pub fn take(&mut self, id: usize, resource: usize) -> (r: bool)
        requires
            old(self).wf(),
            (id < NTH && resource < NRES && old(self).avail_ints()[resource as int] > 0)
                ==> old(self).alloc_ints()[id as int][resource as int] < old(self).max_ints()[
                id as int][resource as int],
        ensures
            final(self).wf(),
            final(self).max_ints() == old(self).max_ints(),
            r == (id < NTH && resource < NRES && old(self).avail_ints()[resource as int] > 0
                && schedulable(
                granted_avail(old(self).avail_ints(), resource as int),
                granted_alloc(old(self).alloc_ints(), id as int, resource as int),
                old(self).max_ints(),
                none_finished(NTH as nat),
            )),
            r ==> final(self).avail_ints() == granted_avail(
                old(self).avail_ints(),
                resource as int,
            ) && final(self).alloc_ints() == granted_alloc(
                old(self).alloc_ints(),
                id as int,
                resource as int,
            ),
            !r ==> final(self).avail_ints() == old(self).avail_ints() && final(self).alloc_ints()
                == old(self).alloc_ints(),
    {
        self.resource.take(id, resource)
    }

    /// Thread `id` hands one unit of `resource` back; nothing happens for
    /// out-of-range arguments or a thread that holds none.
    pub fn release(&mut self, id: usize, resource: usize)
        requires
            old(self).wf(),
        ensures
            final(self).wf(),
            final(self).max_ints() == old(self).max_ints(),
            (id >= NTH || resource >= NRES || old(self).alloc_ints()[id as int][resource as int]
                == 0) ==> final(self).avail_ints() == old(self).avail_ints()
                && final(self).alloc_ints() == old(self).alloc_ints(),
            (id < NTH && resource < NRES && old(self).alloc_ints()[id as int][resource as int]
                > 0) ==> final(self).avail_ints() == returned_avail(
                old(self).avail_ints(),
                resource as int,
            ) && final(self).alloc_ints() == returned_alloc(
                old(self).alloc_ints(),
                id as int,
                resource as int,
            ),
    {
        self.resource.release(id, resource)
    }
}

} // verus!
