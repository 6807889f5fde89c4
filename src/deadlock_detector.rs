//! Banker's-algorithm deadlock detection, one instance per resource class.

use vstd::prelude::*;

verus! {

/// Result code of an acquisition that would leave the system unsafe.
pub const DEADLOCK: isize = -0xdead;

/// Number of `false` entries of a sequence of flags.
pub open spec fn count_unfinished(s: Seq<bool>) -> nat
    decreases s.len(),
{
    if s.len() == 0 {
        0
    } else {
        count_unfinished(s.drop_last()) + if s.last() { 0nat } else { 1nat }
    }
}

proof fn lemma_count_unfinished_mark(s: Seq<bool>, i: int)
    requires
        0 <= i < s.len(),
        !s[i],
    ensures
        count_unfinished(s.update(i, true)) + 1 == count_unfinished(s),
    decreases s.len(),
{
    let u = s.update(i, true);
    if i < s.len() - 1 {
        assert(u.drop_last() =~= s.drop_last().update(i, true));
        lemma_count_unfinished_mark(s.drop_last(), i);
    } else {
        assert(u.drop_last() =~= s.drop_last());
    }
}

/// Deadlock detectors for the two resource classes, tracked independently.
pub struct DeadLockDetector {
    /// detector for mutual-exclusion locks
    pub mutex: DeadLockDetectorInner,
    /// detector for counting semaphores
    pub semaphore: DeadLockDetectorInner,
}

impl DeadLockDetector {
    /// Two fresh detectors, with no resource and no thread.
    pub fn new() -> (r: Self)
        ensures
            r.mutex.wf(),
            r.mutex.is_empty(),
            r.mutex.num_resources() == 0,
            r.mutex.num_threads() == 1,
            forall|rid: int| #[trigger] r.mutex.available_of(rid) == 0,
            forall|rid: int, tid: int| #[trigger] r.mutex.allocation_of(rid, tid) == 0,
            forall|rid: int, tid: int| #[trigger] r.mutex.need_of(rid, tid) == 0,
            r.semaphore.wf(),
            r.semaphore.is_empty(),
            r.semaphore.num_resources() == 0,
            r.semaphore.num_threads() == 1,
            forall|rid: int| #[trigger] r.semaphore.available_of(rid) == 0,
            forall|rid: int, tid: int| #[trigger] r.semaphore.allocation_of(rid, tid) == 0,
            forall|rid: int, tid: int| #[trigger] r.semaphore.need_of(rid, tid) == 0,
    {
        Self { mutex: DeadLockDetectorInner::new(), semaphore: DeadLockDetectorInner::new() }
    }
}

/// Allocation, need and availability of the resources of one class.
///
/// Rows are indexed by resource id, columns by thread id; an entry past the
/// end of a row stands for zero. `work` and `finish` are scratch space of
/// the safety check.
pub struct DeadLockDetectorInner {
    available: Vec<usize>,
    allocation: Vec<Vec<usize>>,
    need: Vec<Vec<usize>>,
    work: Vec<usize>,
    finish: Vec<bool>,
    max_tid: usize,
}

impl DeadLockDetectorInner {
    /// Number of resource ids that are addressable.
    pub closed spec fn num_resources(self) -> nat {
        self.available@.len()
    }

    /// Number of thread ids that the safety check considers: every id up to
    /// the largest one seen so far.
    pub closed spec fn num_threads(self) -> nat {
        self.max_tid as nat + 1
    }

    /// Free units of resource `rid` (zero for an unknown id).
    pub closed spec fn available_of(self, rid: int) -> int {
        if 0 <= rid < self.available@.len() {
            self.available@[rid] as int
        } else {
            0
        }
    }

    /// Units of `rid` held by thread `tid` (zero where never recorded).
    pub closed spec fn allocation_of(self, rid: int, tid: int) -> int {
        if 0 <= rid < self.allocation@.len() && 0 <= tid < self.allocation@[rid]@.len() {
            self.allocation@[rid]@[tid] as int
        } else {
            0
        }
    }

    /// Units of `rid` that thread `tid` waits for (zero where never recorded).
    pub closed spec fn need_of(self, rid: int, tid: int) -> int {
        if 0 <= rid < self.need@.len() && 0 <= tid < self.need@[rid]@.len() {
            self.need@[rid]@[tid] as int
        } else {
            0
        }
    }

    /// Well-formedness: one row per resource id in each matrix, and no row
    /// longer than the thread ids seen so far.
    pub closed spec fn wf(self) -> bool {
        &&& self.allocation@.len() == self.available@.len()
        &&& self.need@.len() == self.available@.len()
        &&& self.max_tid < usize::MAX
        &&& self.finish@.len() <= self.max_tid + 1
        &&& forall|r: int| 0 <= r < self.allocation@.len() ==> self.allocation@[r]@.len() <= self.max_tid + 1
        &&& forall|r: int| 0 <= r < self.need@.len() ==> self.need@[r]@.len() <= self.max_tid + 1
    }

    /// No resource registered and no thread seen beyond id zero.
    pub closed spec fn is_empty(self) -> bool {
        &&& self.available@.len() == 0
        &&& self.max_tid == 0
    }

    /// Same resources, availability, allocation, need and thread count.
    pub open spec fn same_state(self, other: Self) -> bool {
        &&& self.num_resources() == other.num_resources()
        &&& self.num_threads() == other.num_threads()
        &&& forall|r: int| #[trigger] self.available_of(r) == other.available_of(r)
        &&& forall|r: int, t: int| #[trigger] self.allocation_of(r, t) == other.allocation_of(r, t)
        &&& forall|r: int, t: int| #[trigger] self.need_of(r, t) == other.need_of(r, t)
    }

    /// Units of `rid` held by the threads below `k` that `done` flags.
    pub open spec fn held_by(self, done: Seq<bool>, rid: int, k: int) -> int
        decreases k,
    {
        if k <= 0 {
            0
        } else {
            self.held_by(done, rid, k - 1) + if done[k - 1] {
                self.allocation_of(rid, k - 1)
            } else {
                0
            }
        }
    }

    /// Free units of `rid` once the threads flagged in `done` have run to
    /// completion and given back all they hold.
    pub open spec fn work_after(self, done: Seq<bool>, rid: int) -> int {
        self.available_of(rid) + self.held_by(done, rid, done.len() as int)
    }

    /// Thread `tid` can run to completion once the threads flagged in `done`
    /// have: every unit it waits for is free by then.
    pub open spec fn can_finish(self, done: Seq<bool>, tid: int) -> bool {
        forall|r: int| 0 <= r < self.num_resources() ==> #[trigger] self.need_of(r, tid) <= self.work_after(done, r)
    }

    /// Flags of the threads that come before position `i` in `order`.
    pub open spec fn prefix_flags(self, order: Seq<int>, i: int) -> Seq<bool> {
        Seq::new(self.num_threads(), |t: int| order.subrange(0, i).contains(t))
    }

    /// `order` names every thread, and each thread in it can finish once
    /// those before it have.
    pub open spec fn is_completion_order(self, order: Seq<int>) -> bool {
        &&& forall|t: int| 0 <= t < self.num_threads() ==> order.contains(t)
        &&& forall|i: int|
            0 <= i < order.len() ==> 0 <= #[trigger] order[i] < self.num_threads()
                && self.can_finish(self.prefix_flags(order, i), order[i])
    }

    /// Safe state: some order lets every thread run to completion.
    pub open spec fn is_safe(self) -> bool {
        exists|order: Seq<int>| self.is_completion_order(order)
    }

    /// The scratch `work` vector holds the free units after `finish`, capped
    /// at the largest machine integer.
    closed spec fn work_matches(self) -> bool {
        &&& self.work@.len() == self.available@.len()
        &&& self.finish@.len() == self.num_threads()
        &&& forall|r: int|
            0 <= r < self.work@.len() ==> #[trigger] self.work@[r] as int == if self.work_after(
                self.finish@,
                r,
            ) > usize::MAX {
                usize::MAX as int
            } else {
                self.work_after(self.finish@, r)
            }
    }

    /// An empty detector.
    pub fn new() -> (r: Self)
        ensures
            r.wf(),
            r.is_empty(),
            r.num_resources() == 0,
            r.num_threads() == 1,
            forall|rid: int| #[trigger] r.available_of(rid) == 0,
            forall|rid: int, tid: int| #[trigger] r.allocation_of(rid, tid) == 0,
            forall|rid: int, tid: int| #[trigger] r.need_of(rid, tid) == 0,
    {
        Self {
            available: Vec::new(),
            allocation: Vec::new(),
            need: Vec::new(),
            work: Vec::new(),
            finish: Vec::new(),
            max_tid: 0,
        }
    }

    /// Registers `count` units of resource `rid`, making every id up to
    /// `rid` addressable; a repeated call overwrites the free count.
    pub fn create(&mut self, rid: usize, count: usize)
        requires
            old(self).wf(),
            rid < usize::MAX,
        ensures
            final(self).wf(),
            final(self).num_resources() == if rid < old(self).num_resources() {
                old(self).num_resources()
            } else {
                rid as nat + 1
            },
            final(self).num_threads() == old(self).num_threads(),
            final(self).available_of(rid as int) == count,
            forall|r: int| r != rid ==> #[trigger] final(self).available_of(r) == old(self).available_of(r),
            forall|r: int|
                old(self).num_resources() <= r < final(self).num_resources() && r != rid
                    ==> #[trigger] final(self).available_of(r) == 0,
            forall|r: int, t: int| #[trigger] final(self).allocation_of(r, t) == old(self).allocation_of(r, t),
            forall|r: int, t: int| #[trigger] final(self).need_of(r, t) == old(self).need_of(r, t),
    {
        while rid >= self.available.len()
            invariant
                self.wf(),
                self.num_threads() == old(self).num_threads(),
                rid < usize::MAX,
                old(self).available@.len() <= self.available@.len(),
                self.available@.len() <= if rid < old(self).num_resources() {
                    old(self).num_resources()
                } else {
                    rid as nat + 1
                },
                forall|r: int| 0 <= r < old(self).available@.len() ==> self.available@[r] == old(self).available@[r],
                forall|r: int| old(self).available@.len() <= r < self.available@.len() ==> self.available@[r] == 0,
                forall|r: int, t: int| #[trigger] self.allocation_of(r, t) == old(self).allocation_of(r, t),
                forall|r: int, t: int| #[trigger] self.need_of(r, t) == old(self).need_of(r, t),
            decreases rid + 1 - self.available@.len(),
        {
            let ghost prev = *self;
            self.available.push(0);
            self.allocation.push(Vec::new());
            self.need.push(Vec::new());
            assert forall|r: int, t: int| #[trigger] self.allocation_of(r, t) == prev.allocation_of(r, t) by {
                if 0 <= r < prev.allocation@.len() {
                    assert(self.allocation@[r] == prev.allocation@[r]);
                }
            }
            assert forall|r: int, t: int| #[trigger] self.need_of(r, t) == prev.need_of(r, t) by {
                if 0 <= r < prev.need@.len() {
                    assert(self.need@[r] == prev.need@[r]);
                }
            }
        }
        let ghost mid = *self;
        self.available.set(rid, count);
        assert forall|r: int, t: int| #[trigger] self.allocation_of(r, t) == mid.allocation_of(r, t) by {}
        assert forall|r: int, t: int| #[trigger] self.need_of(r, t) == mid.need_of(r, t) by {}
    }

    proof fn lemma_held_by_mark(self, done: Seq<bool>, rid: int, t: int, k: int)
        requires
            0 <= t < done.len(),
            !done[t],
            0 <= k <= done.len(),
        ensures
            self.held_by(done.update(t, true), rid, k) == self.held_by(done, rid, k) + if t < k {
                self.allocation_of(rid, t)
            } else {
                0
            },
        decreases k,
    {
        if k > 0 {
            self.lemma_held_by_mark(done, rid, t, k - 1);
        }
    }

    proof fn lemma_held_by_same(self, other: Self, done: Seq<bool>, rid: int, k: int)
        requires
            forall|r: int, t: int| #[trigger] self.allocation_of(r, t) == other.allocation_of(r, t),
        ensures
            self.held_by(done, rid, k) == other.held_by(done, rid, k),
        decreases k,
    {
        if k > 0 {
            self.lemma_held_by_same(other, done, rid, k - 1);
        }
    }

    proof fn lemma_held_by_zero(self, done: Seq<bool>, rid: int, k: int)
        requires
            0 <= k <= done.len(),
            forall|t: int| 0 <= t < done.len() ==> !done[t],
        ensures
            self.held_by(done, rid, k) == 0,
        decreases k,
    {
        if k > 0 {
            self.lemma_held_by_zero(done, rid, k - 1);
        }
    }

    proof fn lemma_held_by_mono(self, a: Seq<bool>, b: Seq<bool>, rid: int, k: int)
        requires
            a.len() == b.len(),
            0 <= k <= a.len(),
            forall|t: int| 0 <= t < a.len() && #[trigger] a[t] ==> b[t],
            self.wf(),
        ensures
            self.held_by(a, rid, k) <= self.held_by(b, rid, k),
        decreases k,
    {
        if k > 0 {
            self.lemma_held_by_mono(a, b, rid, k - 1);
            if a[k - 1] {
                assert(b[k - 1]);
            } else if b[k - 1] {
                assert(self.allocation_of(rid, k - 1) >= 0);
            }
        }
    }

    /// A thread that can finish after the threads of `a` can finish after
    /// any larger set of threads.
    proof fn lemma_can_finish_mono(self, a: Seq<bool>, b: Seq<bool>, tid: int)
        requires
            self.wf(),
            a.len() == b.len(),
            forall|t: int| 0 <= t < a.len() && #[trigger] a[t] ==> b[t],
            self.can_finish(a, tid),
        ensures
            self.can_finish(b, tid),
    {
        assert forall|r: int| 0 <= r < self.num_resources() implies #[trigger] self.need_of(r, tid) <= self.work_after(b, r) by {
            self.lemma_held_by_mono(a, b, r, a.len() as int);
        }
    }

    /// Every thread of a completion order is finished, where no unfinished
    /// thread can finish after those already finished.
    proof fn lemma_order_all_finished(self, fin: Seq<bool>, order: Seq<int>, k: int)
        requires
            self.wf(),
            fin.len() == self.num_threads(),
            self.is_completion_order(order),
            forall|t: int| 0 <= t < fin.len() && !#[trigger] fin[t] ==> !self.can_finish(fin, t),
            0 <= k <= order.len(),
        ensures
            forall|j: int| 0 <= j < k ==> fin[#[trigger] order[j]],
        decreases k,
    {
        if k > 0 {
            self.lemma_order_all_finished(fin, order, k - 1);
            let p = self.prefix_flags(order, k - 1);
            assert forall|t: int| 0 <= t < p.len() && #[trigger] p[t] implies fin[t] by {
                let j = choose|j: int| 0 <= j < k - 1 && #[trigger] order.subrange(0, k - 1)[j] == t;
                assert(order[j] == t);
            }
            assert(0 <= order[k - 1] < self.num_threads() && self.can_finish(p, order[k - 1]));
            self.lemma_can_finish_mono(p, fin, order[k - 1]);
        }
    }

    /// Units of `rid` given back by thread `tid`: one more free unit, and one
    /// fewer held and waited for where there was any, never below zero.
    pub fn add(&mut self, tid: usize, rid: usize)
        requires
            old(self).wf(),
            rid < old(self).num_resources(),
            old(self).available_of(rid as int) < usize::MAX,
        ensures
            final(self).wf(),
            final(self).num_resources() == old(self).num_resources(),
            final(self).num_threads() == old(self).num_threads(),
            final(self).available_of(rid as int) == old(self).available_of(rid as int) + 1,
            forall|r: int| r != rid ==> #[trigger] final(self).available_of(r) == old(self).available_of(r),
            final(self).allocation_of(rid as int, tid as int) == if old(self).allocation_of(rid as int, tid as int) > 0 {
                old(self).allocation_of(rid as int, tid as int) - 1
            } else {
                0
            },
            final(self).need_of(rid as int, tid as int) == if old(self).need_of(rid as int, tid as int) > 0 {
                old(self).need_of(rid as int, tid as int) - 1
            } else {
                0
            },
            forall|r: int, t: int| (r != rid || t != tid) ==> #[trigger] final(self).allocation_of(r, t) == old(self).allocation_of(r, t),
            forall|r: int, t: int| (r != rid || t != tid) ==> #[trigger] final(self).need_of(r, t) == old(self).need_of(r, t),
    {
        let a = self.available[rid];
        self.available.set(rid, a + 1);
        if tid < self.allocation[rid].len() && self.allocation[rid][tid] > 0 {
            self.allocation[rid][tid] -= 1;
        }
        if tid < self.need[rid].len() && self.need[rid][tid] > 0 {
            self.need[rid][tid] -= 1;
        }
        assert forall|r: int, t: int| (r != rid || t != tid) implies #[trigger] self.allocation_of(r, t) == old(self).allocation_of(r, t) by {
            if r != rid && 0 <= r < self.allocation@.len() {
                assert(self.allocation@[r] == old(self).allocation@[r]);
            }
        }
        assert forall|r: int, t: int| (r != rid || t != tid) implies #[trigger] self.need_of(r, t) == old(self).need_of(r, t) by {
            if r != rid && 0 <= r < self.need@.len() {
                assert(self.need@[r] == old(self).need@[r]);
            }
        }
    }

    /// Marks thread `tid` finished if every unit it waits for is free in
    /// `work`, and folds what it holds back into `work`.
    fn try_finish(&mut self, tid: usize) -> (r: bool)
        requires
            old(self).wf(),
            old(self).work_matches(),
            tid < old(self).finish@.len(),
        ensures
            final(self).wf(),
            final(self).work_matches(),
            final(self).same_state(*old(self)),
            r == (old(self).finish@[tid as int] || old(self).can_finish(old(self).finish@, tid as int)),
            final(self).finish@ == if !old(self).finish@[tid as int] && old(self).can_finish(old(self).finish@, tid as int) {
                old(self).finish@.update(tid as int, true)
            } else {
                old(self).finish@
            },
    {
        if self.finish[tid] {
            return true;
        }
        let mut blocked = false;
        let mut i: usize = 0;
        while i < self.need.len() && !blocked
            invariant
                *self == *old(self),
                self.wf(),
                self.work_matches(),
                i <= self.need@.len(),
                tid < self.finish@.len(),
                !blocked ==> forall|r: int| 0 <= r < i ==> #[trigger] self.need_of(r, tid as int) <= self.work_after(self.finish@, r),
                blocked ==> exists|r: int| 0 <= r < self.num_resources() && #[trigger] self.need_of(r, tid as int) > self.work_after(self.finish@, r),
            decreases self.need@.len() - i + if blocked { 0int } else { 1int },
        {
            if tid < self.need[i].len() && self.need[i][tid] > self.work[i] {
                blocked = true;
                assert(self.need_of(i as int, tid as int) > self.work_after(self.finish@, i as int));
            } else {
                assert(self.need_of(i as int, tid as int) <= self.work@[i as int]);
                i += 1;
            }
        }
        if !blocked {
            let ghost before = *self;
            let ghost after_fin = self.finish@.update(tid as int, true);
            proof {
                assert forall|r: int| true implies #[trigger] self.held_by(after_fin, r, after_fin.len() as int) == self.held_by(self.finish@, r, self.finish@.len() as int) + self.allocation_of(r, tid as int) by {
                    self.lemma_held_by_mark(self.finish@, r, tid as int, self.finish@.len() as int);
                }
            }
            let mut rid: usize = 0;
            while rid < self.allocation.len()
                invariant
                    self.wf(),
                    before.wf(),
                    self.same_state(before),
                    self.available == before.available,
                    self.allocation == before.allocation,
                    self.need == before.need,
                    self.finish == before.finish,
                    self.max_tid == before.max_tid,
                    after_fin == before.finish@.update(tid as int, true),
                    rid <= self.allocation@.len(),
                    self.work@.len() == self.available@.len(),
                    forall|r: int| true ==> #[trigger] before.held_by(after_fin, r, after_fin.len() as int) == before.held_by(before.finish@, r, before.finish@.len() as int) + before.allocation_of(r, tid as int),
                    forall|r: int| 0 <= r < rid ==> #[trigger] self.work@[r] as int == if before.work_after(after_fin, r) > usize::MAX {
                        usize::MAX as int
                    } else {
                        before.work_after(after_fin, r)
                    },
                    forall|r: int| rid <= r < self.work@.len() ==> #[trigger] self.work@[r] == before.work@[r],
                    before.work_matches(),
                decreases self.allocation@.len() - rid,
            {
                if tid < self.allocation[rid].len() {
                    let w = self.work[rid];
                    let a = self.allocation[rid][tid];
                    self.work.set(rid, w.saturating_add(a));
                } else {
                    assert(self.allocation_of(rid as int, tid as int) == 0);
                }
                rid += 1;
            }
            self.finish.set(tid, true);
            proof {
                assert forall|r: int| true implies #[trigger] self.work_after(after_fin, r) == before.work_after(after_fin, r) by {
                    self.lemma_held_by_same(before, after_fin, r, after_fin.len() as int);
                }
            }
            return true;
        }
        false
    }

    proof fn lemma_can_finish_same(self, other: Self, done: Seq<bool>, tid: int)
        requires
            self.same_state(other),
        ensures
            self.can_finish(done, tid) == other.can_finish(done, tid),
    {
        assert forall|r: int| true implies #[trigger] self.work_after(done, r) == other.work_after(done, r) by {
            self.lemma_held_by_same(other, done, r, done.len() as int);
        }
        if self.can_finish(done, tid) {
            assert forall|r: int| 0 <= r < other.num_resources() implies #[trigger] other.need_of(r, tid) <= other.work_after(done, r) by {
                assert(self.need_of(r, tid) <= self.work_after(done, r));
            }
        }
        if other.can_finish(done, tid) {
            assert forall|r: int| 0 <= r < self.num_resources() implies #[trigger] self.need_of(r, tid) <= self.work_after(done, r) by {
                assert(other.need_of(r, tid) <= other.work_after(done, r));
            }
        }
    }

    /// Banker's safety check over the recorded allocation and need: 0 where
    /// some order lets every thread run to completion, `DEADLOCK` otherwise.
    pub fn detect(&mut self) -> (r: isize)
        requires
            old(self).wf(),
        ensures
            final(self).wf(),
            final(self).same_state(*old(self)),
            r == 0 || r == DEADLOCK,
            r == 0 <==> old(self).is_safe(),
    {
        let n = self.max_tid + 1;
        let mut i: usize = 0;
        while i < self.finish.len()
            invariant
                self.wf(),
                self.available == old(self).available,
                self.allocation == old(self).allocation,
                self.need == old(self).need,
                self.max_tid == old(self).max_tid,
                n == self.max_tid + 1,
                i <= self.finish@.len(),
                forall|j: int| 0 <= j < i ==> !self.finish@[j],
            decreases self.finish@.len() - i,
        {
            self.finish.set(i, false);
            i += 1;
        }
        while self.finish.len() < n
            invariant
                self.wf(),
                self.available == old(self).available,
                self.allocation == old(self).allocation,
                self.need == old(self).need,
                self.max_tid == old(self).max_tid,
                n == self.max_tid + 1,
                forall|j: int| 0 <= j < self.finish@.len() ==> !self.finish@[j],
            decreases n - self.finish@.len(),
        {
            self.finish.push(false);
        }
        let mut work: Vec<usize> = Vec::new();
        let mut k: usize = 0;
        while k < self.available.len()
            invariant
                k <= self.available@.len(),
                work@ == self.available@.subrange(0, k as int),
            decreases self.available@.len() - k,
        {
            work.push(self.available[k]);
            k += 1;
        }
        assert(work@ =~= self.available@);
        self.work = work;
        proof {
            assert forall|r: int| 0 <= r < self.work@.len() implies #[trigger] self.work@[r] as int == if self.work_after(self.finish@, r) > usize::MAX {
                usize::MAX as int
            } else {
                self.work_after(self.finish@, r)
            } by {
                self.lemma_held_by_zero(self.finish@, r, self.finish@.len() as int);
            }
            assert(self.same_state(*old(self)));
        }
        let ghost mut order: Seq<int> = Seq::empty();
        loop
            invariant
                self.wf(),
                self.work_matches(),
                self.same_state(*old(self)),
                n == self.num_threads(),
                forall|t: int| 0 <= t < n ==> (self.finish@[t] <==> order.contains(t)),
                forall|j: int|
                    0 <= j < order.len() ==> 0 <= #[trigger] order[j] < n && old(self).can_finish(
                        old(self).prefix_flags(order, j),
                        order[j],
                    ),
            ensures
                forall|t: int| 0 <= t < n && !#[trigger] self.finish@[t] ==> !old(self).can_finish(self.finish@, t),
            decreases count_unfinished(self.finish@),
        {
            let ghost start = self.finish@;
            let mut progressed = false;
            let mut i: usize = 0;
            while i < n
                invariant
                    self.wf(),
                    self.work_matches(),
                    self.same_state(*old(self)),
                    n == self.num_threads(),
                    i <= n,
                    start.len() == n,
                    forall|t: int| 0 <= t < n ==> (self.finish@[t] <==> order.contains(t)),
                    forall|j: int|
                        0 <= j < order.len() ==> 0 <= #[trigger] order[j] < n && old(self).can_finish(
                            old(self).prefix_flags(order, j),
                            order[j],
                        ),
                    !progressed ==> self.finish@ == start,
                    progressed ==> count_unfinished(self.finish@) < count_unfinished(start),
                    !progressed ==> forall|t: int| 0 <= t < i && !#[trigger] self.finish@[t] ==> !old(self).can_finish(self.finish@, t),
                decreases n - i,
            {
                let was = self.finish[i];
                let ghost prev = *self;
                let ok = self.try_finish(i);
                proof {
                    prev.lemma_can_finish_same(*old(self), prev.finish@, i as int);
                }
                if !was && ok {
                    progressed = true;
                    proof {
                        lemma_count_unfinished_mark(prev.finish@, i as int);
                        let o2 = order.push(i as int);
                        assert(old(self).prefix_flags(o2, order.len() as int) =~= prev.finish@) by {
                            assert(o2.subrange(0, order.len() as int) =~= order);
                        }
                        assert forall|j: int| 0 <= j < o2.len() implies 0 <= #[trigger] o2[j] < n && old(self).can_finish(
                            old(self).prefix_flags(o2, j),
                            o2[j],
                        ) by {
                            if j < order.len() {
                                assert(o2.subrange(0, j) =~= order.subrange(0, j));
                                assert(old(self).prefix_flags(o2, j) =~= old(self).prefix_flags(order, j));
                            }
                        }
                        assert forall|t: int| 0 <= t < n implies (self.finish@[t] <==> o2.contains(t)) by {
                            if t == i {
                                assert(o2[order.len() as int] == t);
                            } else {
                                if o2.contains(t) {
                                    let j = choose|j: int| 0 <= j < o2.len() && o2[j] == t;
                                    assert(order[j] == t);
                                }
                                if order.contains(t) {
                                    let j = choose|j: int| 0 <= j < order.len() && order[j] == t;
                                    assert(o2[j] == t);
                                }
                                assert(self.finish@[t] == prev.finish@[t]);
                            }
                        }
                        order = o2;
                    }
                }
                i += 1;
            }
            if !progressed {
                break;
            }
        }
        let mut all = true;
        let mut t: usize = 0;
        while t < n
            invariant
                t <= n,
                n == self.finish@.len(),
                all <==> forall|j: int| 0 <= j < t ==> self.finish@[j],
            decreases n - t,
        {
            if !self.finish[t] {
                all = false;
            }
            t += 1;
        }
        proof {
            if all {
                assert(old(self).is_completion_order(order));
            } else {
                let t0 = choose|j: int| 0 <= j < n && !self.finish@[j];
                if old(self).is_safe() {
                    let o = choose|o: Seq<int>| old(self).is_completion_order(o);
                    assert forall|t: int| 0 <= t < self.finish@.len() && !#[trigger] self.finish@[t] implies !old(self).can_finish(self.finish@, t) by {
                    }
                    old(self).lemma_order_all_finished(self.finish@, o, o.len() as int);
                    assert(o.contains(t0));
                    let j = choose|j: int| 0 <= j < o.len() && o[j] == t0;
                    assert(self.finish@[o[j]]);
                }
            }
        }
        if !all {
            return DEADLOCK;
        }
        0
    }

    /// Thread `tid` asks for one unit of `rid`. A free unit is handed over
    /// at once and 0 returned. With none free, the request is recorded as
    /// one more unit of need and the safety check decides: 0 where the state
    /// with that need is safe, `DEADLOCK` where it is not.
    pub fn minus(&mut self, tid: usize, rid: usize) -> (r: isize)
        requires
            old(self).wf(),
            rid < old(self).num_resources(),
            tid < usize::MAX,
            old(self).allocation_of(rid as int, tid as int) < usize::MAX,
            old(self).need_of(rid as int, tid as int) < usize::MAX,
        ensures
            final(self).wf(),
            final(self).num_resources() == old(self).num_resources(),
            final(self).num_threads() == if tid < old(self).num_threads() {
                old(self).num_threads()
            } else {
                tid as nat + 1
            },
            old(self).available_of(rid as int) > 0 ==> {
                &&& r == 0
                &&& final(self).available_of(rid as int) == old(self).available_of(rid as int) - 1
                &&& forall|q: int| q != rid ==> #[trigger] final(self).available_of(q) == old(self).available_of(q)
                &&& final(self).allocation_of(rid as int, tid as int) == old(self).allocation_of(rid as int, tid as int) + 1
                &&& forall|q: int, t: int| (q != rid || t != tid) ==> #[trigger] final(self).allocation_of(q, t) == old(self).allocation_of(q, t)
                &&& forall|q: int, t: int| #[trigger] final(self).need_of(q, t) == old(self).need_of(q, t)
            },
            old(self).available_of(rid as int) == 0 ==> {
                &&& r == 0 || r == DEADLOCK
                &&& (r == 0 <==> final(self).is_safe())
                &&& forall|q: int| #[trigger] final(self).available_of(q) == old(self).available_of(q)
                &&& forall|q: int, t: int| #[trigger] final(self).allocation_of(q, t) == old(self).allocation_of(q, t)
                &&& final(self).need_of(rid as int, tid as int) == old(self).need_of(rid as int, tid as int) + 1
                &&& forall|q: int, t: int| (q != rid || t != tid) ==> #[trigger] final(self).need_of(q, t) == old(self).need_of(q, t)
            },
    {
        if self.max_tid < tid {
            self.max_tid = tid;
        }
        if self.available[rid] == 0 {
            while tid >= self.need[rid].len()
                invariant
                    self.wf(),
                    tid <= self.max_tid,
                    self.max_tid == if tid <= old(self).max_tid { old(self).max_tid } else { tid },
                    rid < self.need@.len(),
                    self.available == old(self).available,
                    self.allocation == old(self).allocation,
                    self.finish == old(self).finish,
                    forall|q: int, t: int| #[trigger] self.need_of(q, t) == old(self).need_of(q, t),
                decreases tid + 1 - self.need@[rid as int]@.len(),
            {
                let ghost prev = *self;
                self.need[rid].push(0);
                assert forall|q: int, t: int| #[trigger] self.need_of(q, t) == prev.need_of(q, t) by {
                    if 0 <= q < prev.need@.len() && q != rid {
                        assert(self.need@[q] == prev.need@[q]);
                    }
                }
            }
            let ghost grown = *self;
            while tid >= self.finish.len()
                invariant
                    self.wf(),
                    tid <= self.max_tid,
                    self.max_tid == if tid <= old(self).max_tid { old(self).max_tid } else { tid },
                    rid < self.need@.len(),
                    tid < self.need@[rid as int]@.len(),
                    self.available == old(self).available,
                    self.allocation == old(self).allocation,
                    self.need == grown.need,
                    forall|q: int, t: int| #[trigger] grown.need_of(q, t) == old(self).need_of(q, t),
                decreases tid + 1 - self.finish@.len(),
            {
                self.finish.push(false);
            }
            assert forall|q: int, t: int| #[trigger] self.need_of(q, t) == old(self).need_of(q, t) by {
                assert(grown.need_of(q, t) == old(self).need_of(q, t));
            }
            let ghost prev = *self;
            assert(self.need_of(rid as int, tid as int) == old(self).need_of(rid as int, tid as int));
            self.need[rid][tid] += 1;
            assert forall|q: int, t: int| (q != rid || t != tid) implies #[trigger] self.need_of(q, t) == old(self).need_of(q, t) by {
                assert(prev.need_of(q, t) == old(self).need_of(q, t));
                if 0 <= q < prev.need@.len() && q != rid {
                    assert(self.need@[q] == prev.need@[q]);
                }
            }
            let ghost recorded = *self;
            let res = self.detect();
            proof {
                assert forall|q: int, t: int| #[trigger] self.allocation_of(q, t) == old(self).allocation_of(q, t) by {
                    assert(recorded.allocation_of(q, t) == old(self).allocation_of(q, t));
                }
                assert forall|q: int| #[trigger] self.available_of(q) == old(self).available_of(q) by {
                    assert(recorded.available_of(q) == old(self).available_of(q));
                }
                assert forall|q: int, t: int| (q != rid || t != tid) implies #[trigger] self.need_of(q, t) == old(self).need_of(q, t) by {
                    assert(recorded.need_of(q, t) == old(self).need_of(q, t));
                }
                assert(recorded.need_of(rid as int, tid as int) == old(self).need_of(rid as int, tid as int) + 1);
                if recorded.is_safe() {
                    let o = choose|o: Seq<int>| recorded.is_completion_order(o);
                    assert forall|i: int| 0 <= i < o.len() implies 0 <= #[trigger] o[i] < self.num_threads()
                        && self.can_finish(self.prefix_flags(o, i), o[i]) by {
                        assert(recorded.prefix_flags(o, i) == self.prefix_flags(o, i));
                        self.lemma_can_finish_same(recorded, self.prefix_flags(o, i), o[i]);
                    }
                    assert(self.is_completion_order(o));
                }
                if self.is_safe() {
                    let o = choose|o: Seq<int>| self.is_completion_order(o);
                    assert forall|i: int| 0 <= i < o.len() implies 0 <= #[trigger] o[i] < recorded.num_threads()
                        && recorded.can_finish(recorded.prefix_flags(o, i), o[i]) by {
                        assert(recorded.prefix_flags(o, i) == self.prefix_flags(o, i));
                        self.lemma_can_finish_same(recorded, self.prefix_flags(o, i), o[i]);
                    }
                    assert(recorded.is_completion_order(o));
                }
            }
            return res;
        }
        let a = self.available[rid];
        self.available.set(rid, a - 1);
        while tid >= self.allocation[rid].len()
            invariant
                self.wf(),
                tid <= self.max_tid,
                self.max_tid == if tid <= old(self).max_tid { old(self).max_tid } else { tid },
                rid < self.allocation@.len(),
                a > 0,
                rid < old(self).available@.len(),
                self.available@ == old(self).available@.update(rid as int, (a - 1) as usize),
                self.need == old(self).need,
                forall|q: int, t: int| #[trigger] self.allocation_of(q, t) == old(self).allocation_of(q, t),
            decreases tid + 1 - self.allocation@[rid as int]@.len(),
        {
            let ghost prev = *self;
            self.allocation[rid].push(0);
            assert forall|q: int, t: int| #[trigger] self.allocation_of(q, t) == prev.allocation_of(q, t) by {
                if 0 <= q < prev.allocation@.len() && q != rid {
                    assert(self.allocation@[q] == prev.allocation@[q]);
                }
            }
        }
        let ghost prev = *self;
        assert(self.allocation_of(rid as int, tid as int) == old(self).allocation_of(rid as int, tid as int));
        self.allocation[rid][tid] += 1;
        assert forall|q: int, t: int| (q != rid || t != tid) implies #[trigger] self.allocation_of(q, t) == old(self).allocation_of(q, t) by {
            assert(prev.allocation_of(q, t) == old(self).allocation_of(q, t));
            if 0 <= q < prev.allocation@.len() && q != rid {
                assert(self.allocation@[q] == prev.allocation@[q]);
            }
        }
        assert forall|q: int, t: int| #[trigger] self.need_of(q, t) == old(self).need_of(q, t) by {}
        0
    }

    /// Free units of resource `rid`.
    pub fn available_units(&self, rid: usize) -> (r: usize)
        requires
            self.wf(),
            rid < self.num_resources(),
        ensures
            r == self.available_of(rid as int),
    {
        self.available[rid]
    }

    /// Units of `rid` held by thread `tid`.
    pub fn allocated(&self, tid: usize, rid: usize) -> (r: usize)
        requires
            self.wf(),
            rid < self.num_resources(),
        ensures
            r == self.allocation_of(rid as int, tid as int),
    {
        if tid < self.allocation[rid].len() {
            self.allocation[rid][tid]
        } else {
            0
        }
    }

    /// Units of `rid` that thread `tid` waits for.
    pub fn needed(&self, tid: usize, rid: usize) -> (r: usize)
        requires
            self.wf(),
            rid < self.num_resources(),
        ensures
            r == self.need_of(rid as int, tid as int),
    {
        if tid < self.need[rid].len() {
            self.need[rid][tid]
        } else {
            0
        }
    }
}

/// Every recorded count lies between zero and the largest machine integer;
/// a resource id that was never created has no free unit, and no thread
/// beyond the largest id seen holds or waits for anything.
pub proof fn lemma_entries_in_range(d: DeadLockDetectorInner)
    requires
        d.wf(),
    ensures
        forall|rid: int| 0 <= #[trigger] d.available_of(rid) <= usize::MAX,
        forall|rid: int, tid: int| 0 <= #[trigger] d.allocation_of(rid, tid) <= usize::MAX,
        forall|rid: int, tid: int| 0 <= #[trigger] d.need_of(rid, tid) <= usize::MAX,
        forall|rid: int| !(0 <= rid < d.num_resources()) ==> #[trigger] d.available_of(rid) == 0,
        forall|rid: int, tid: int|
            !(0 <= rid < d.num_resources()) || tid < 0 || tid >= d.num_threads()
                ==> #[trigger] d.allocation_of(rid, tid) == 0,
        forall|rid: int, tid: int|
            !(0 <= rid < d.num_resources()) || tid < 0 || tid >= d.num_threads()
                ==> #[trigger] d.need_of(rid, tid) == 0,
{
}

} // verus!
