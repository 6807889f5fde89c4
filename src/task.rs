//! Stride scheduling: the ready task with the least stride runs next.

use vstd::prelude::*;

verus! {

/// Ceiling of every stride, and the stride a task of priority one gains on
/// each return to the ready pool.
pub const BIG_STRIDE: usize = 0x10_0000;

/// The scheduling fields of a task.
#[derive(Clone, Copy, Debug, PartialEq, Eq)]
pub struct TaskControlBlock {
    /// process id
    pub pid: usize,
    /// weight: a larger priority gets a larger share of the processor
    pub priority: usize,
    /// accumulated virtual runtime
    pub stride: usize,
}

/// Stride after one return to the ready pool: it grows by
/// `BIG_STRIDE as int / priority` and is capped at `BIG_STRIDE`.
pub open spec fn next_stride(stride: int, priority: int) -> int {
    if stride + BIG_STRIDE as int / priority >= BIG_STRIDE {
        BIG_STRIDE as int
    } else {
        stride + BIG_STRIDE as int / priority
    }
}

/// Position `k` holds the least stride of `q`, and no earlier position does.
pub open spec fn is_first_min(q: Seq<TaskControlBlock>, k: int) -> bool {
    &&& 0 <= k < q.len()
    &&& forall|j: int| 0 <= j < q.len() ==> q[k].stride <= #[trigger] q[j].stride
    &&& forall|j: int| 0 <= j < k ==> q[k].stride < #[trigger] q[j].stride
}

/// No two tasks of `q` have the same process id.
pub open spec fn unique_pids(q: Seq<TaskControlBlock>) -> bool {
    forall|i: int, j: int| 0 <= i < q.len() && 0 <= j < q.len() && i != j ==> q[i].pid != q[j].pid
}

/// The pool of ready tasks.
pub struct TaskManager {
    ready_queue: Vec<TaskControlBlock>,
}

impl View for TaskManager {
    type V = Seq<TaskControlBlock>;

    closed spec fn view(&self) -> Seq<TaskControlBlock> {
        self.ready_queue@
    }
}

impl TaskManager {
    /// Every ready task's stride is at most `BIG_STRIDE`.
    pub open spec fn wf(&self) -> bool {
        forall|i: int| 0 <= i < self@.len() ==> #[trigger] self@[i].stride <= BIG_STRIDE
    }

    /// An empty pool.
    pub fn new() -> (r: Self)
        ensures
            r.wf(),
            r@ == Seq::<TaskControlBlock>::empty(),
    {
        Self { ready_queue: Vec::new() }
    }

    /// Puts `task` back into the pool after advancing its stride.
    pub fn add(&mut self, task: TaskControlBlock)
        requires
            old(self).wf(),
            task.priority >= 1,
        ensures
            final(self).wf(),
            final(self)@ == old(self)@.push(
                TaskControlBlock { stride: next_stride(task.stride as int, task.priority as int) as usize, ..task },
            ),
    {
        let mut task = task;
        let step = BIG_STRIDE / task.priority;
        if task.stride >= BIG_STRIDE - step {
            task.stride = BIG_STRIDE;
        } else {
            task.stride = task.stride + step;
        }
        self.ready_queue.push(task);
        assert forall|i: int| 0 <= i < self@.len() implies #[trigger] self@[i].stride <= BIG_STRIDE by {
            if i < old(self)@.len() {
                assert(self@[i] == old(self)@[i]);
            }
        }
    }

    /// Takes out the ready task with the least stride, the earliest one in
    /// the pool among equals; `None` where the pool is empty.
    pub fn fetch(&mut self) -> (r: Option<TaskControlBlock>)
        requires
            old(self).wf(),
        ensures
            final(self).wf(),
            r is None <==> old(self)@.len() == 0,
            r is None ==> final(self)@ == old(self)@,
            r matches Some(t) ==> exists|k: int|
                is_first_min(old(self)@, k) && t == old(self)@[k] && final(self)@ == old(self)@.remove(k),
    {
        let mut min_stride = BIG_STRIDE;
        let mut min_index: usize = 0;
        let mut i: usize = 0;
        while i < self.ready_queue.len()
            invariant
                self.wf(),
                *self == *old(self),
                i <= self@.len(),
                min_stride <= BIG_STRIDE,
                min_stride < BIG_STRIDE ==> min_index < i && self@[min_index as int].stride == min_stride,
                min_stride == BIG_STRIDE ==> min_index == 0,
                forall|j: int| 0 <= j < i ==> min_stride <= #[trigger] self@[j].stride,
                forall|j: int| 0 <= j < min_index ==> min_stride < #[trigger] self@[j].stride,
            decreases self@.len() - i,
        {
            if self.ready_queue[i].stride < min_stride {
                min_stride = self.ready_queue[i].stride;
                min_index = i;
            }
            i += 1;
        }
        if self.ready_queue.len() == 0 {
            return None;
        }
        let ghost q = self@;
        proof {
            if min_stride == BIG_STRIDE {
                assert forall|j: int| 0 <= j < q.len() implies q[0].stride <= #[trigger] q[j].stride by {
                    assert(q[0].stride <= BIG_STRIDE);
                }
            }
            assert(is_first_min(q, min_index as int));
        }
        let t = self.ready_queue.remove(min_index);
        Some(t)
    }
}

/// A task taken out by `fetch` is no longer in the pool, so it is not
/// handed out again before it is added back (process ids being unique).
pub proof fn lemma_fetched_task_leaves_pool(q: Seq<TaskControlBlock>, k: int)
    requires
        unique_pids(q),
        0 <= k < q.len(),
    ensures
        forall|j: int| 0 <= j < q.remove(k).len() ==> #[trigger] q.remove(k)[j].pid != q[k].pid,
{
    assert forall|j: int| 0 <= j < q.remove(k).len() implies #[trigger] q.remove(k)[j].pid != q[k].pid by {
        if j < k {
            assert(q.remove(k)[j] == q[j]);
        } else {
            assert(q.remove(k)[j] == q[j + 1]);
        }
    }
}

} // verus!
