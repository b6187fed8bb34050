//! The ready queue with stride scheduling.
//!
//! Every ready task carries a stride and a priority. `fetch` hands out the task
//! with the smallest stride (the earliest one among equals) and advances its
//! stride by `BIG_STRIDE / priority`, so that a task with a higher priority is
//! picked more often.
use std::collections::VecDeque;
use vstd::prelude::*;

verus! {

/// Numerator of the pass that a task's stride advances by when it is scheduled.
pub const BIG_STRIDE: usize = 1000000;

/// A ready task as the scheduler sees it.
#[derive(Clone, Copy, Debug, PartialEq, Eq, Structural)]
pub struct TaskEntry {
    pub pid: usize,
    pub stride: usize,
    pub priority: usize,
}

/// The pass that scheduling `t` once adds to its stride.
pub open spec fn pass_of(t: TaskEntry) -> int {
    BIG_STRIDE as int / t.priority as int
}

/// The pass is the whole quotient of `BIG_STRIDE` by the priority: the
/// largest number whose product with the priority stays within `BIG_STRIDE`.
pub proof fn law_pass_is_quotient(t: TaskEntry)
    requires
        t.priority > 0,
    ensures
        pass_of(t) >= 0,
        pass_of(t) * t.priority <= BIG_STRIDE,
        BIG_STRIDE < (pass_of(t) + 1) * t.priority,
        advanced(t).stride == t.stride + pass_of(t) ==> advanced(t).stride * t.priority <= t.stride * t.priority + BIG_STRIDE,
{
    let p = t.priority as int;
    let q = pass_of(t);
    assert(q == BIG_STRIDE as int / p);
    vstd::arithmetic::div_mod::lemma_fundamental_div_mod(BIG_STRIDE as int, p);
    let r = BIG_STRIDE as int % p;
    assert(0 <= r < p) by {
        vstd::arithmetic::div_mod::lemma_mod_bound(BIG_STRIDE as int, p);
    }
    assert(BIG_STRIDE as int == p * q + r);
    assert(q >= 0) by {
        vstd::arithmetic::div_mod::lemma_div_pos_is_pos(BIG_STRIDE as int, p);
    }
    assert(q * p <= BIG_STRIDE) by (nonlinear_arith)
        requires
            BIG_STRIDE as int == p * q + r,
            0 <= r,
    ;
    assert(BIG_STRIDE < (q + 1) * p) by (nonlinear_arith)
        requires
            BIG_STRIDE as int == p * q + r,
            r < p,
    ;
    if advanced(t).stride == t.stride + q {
        assert(advanced(t).stride * p <= t.stride * p + BIG_STRIDE) by (nonlinear_arith)
            requires
                advanced(t).stride == t.stride + q,
                q * p <= BIG_STRIDE,
                p > 0,
        ;
    }
}

/// `t` after it has been scheduled once.
pub open spec fn advanced(t: TaskEntry) -> TaskEntry {
    TaskEntry { stride: (t.stride + pass_of(t)) as usize, ..t }
}

/// `k` is the earliest position of a smallest stride in `q`.
pub open spec fn is_first_min(q: Seq<TaskEntry>, k: int) -> bool {
    &&& 0 <= k < q.len()
    &&& forall|i: int| 0 <= i < q.len() ==> q[k].stride <= #[trigger] q[i].stride
    &&& forall|i: int| 0 <= i < k ==> #[trigger] q[i].stride > q[k].stride
}

/// Scheduling the task that `fetch` would pick from `q` divides by a nonzero
/// priority and keeps its stride within `usize`.
pub open spec fn can_fetch(q: Seq<TaskEntry>) -> bool {
    forall|k: int|
        #[trigger] is_first_min(q, k) ==> q[k].priority > 0 && q[k].stride + pass_of(q[k])
            <= usize::MAX
}

/// The ready tasks, in the order they were added.
pub struct TaskManager {
    ready_queue: VecDeque<TaskEntry>,
}

impl View for TaskManager {
    type V = Seq<TaskEntry>;

    closed spec fn view(&self) -> Seq<TaskEntry> {
        self.ready_queue@
    }
}

impl TaskManager {
    /// An empty ready queue.
    pub fn new() -> (m: Self)
        ensures
            m@ == Seq::<TaskEntry>::empty(),
    {
        TaskManager { ready_queue: VecDeque::new() }
    }

    /// Appends `task` at the back of the ready queue.
    pub fn add(&mut self, task: TaskEntry)
        ensures
            final(self)@ == old(self)@.push(task),
    {
        self.ready_queue.push_back(task);
    }

    /// Number of ready tasks.
    pub fn len(&self) -> (n: usize)
        ensures
            n == self@.len(),
    {
        self.ready_queue.len()
    }

    /// Whether [`TaskManager::fetch`] can run now: the task it would pick has a
    /// nonzero priority and a stride that can advance within `usize`.
    pub fn can_fetch_now(&self) -> (ok: bool)
        ensures
            ok == can_fetch(self@),
    {
        let len = self.ready_queue.len();
        if len == 0 {
            return true;
        }
        let ghost q = self.ready_queue@;
        let mut min_stride_index: usize = 0;
        let mut min_stride: usize = usize::MAX;
        let mut i: usize = 0;
        while i < len
            invariant
                len == q.len(),
                q == self.ready_queue@,
                i <= len,
                min_stride_index < len,
                forall|p: int| 0 <= p < i ==> min_stride <= #[trigger] q[p].stride,
                min_stride == usize::MAX ==> min_stride_index == 0,
                min_stride != usize::MAX ==> min_stride_index < i && q[min_stride_index as int].stride
                    == min_stride && forall|p: int|
                    0 <= p < min_stride_index ==> #[trigger] q[p].stride > min_stride,
            decreases len - i,
        {
            let stride = self.ready_queue[i].stride;
            if stride < min_stride {
                min_stride = stride;
                min_stride_index = i;
            }
            i = i + 1;
        }
        proof {
            assert(is_first_min(q, min_stride_index as int));
            assert forall|k: int| #[trigger] is_first_min(q, k) implies k == min_stride_index by {
                law_first_min_unique(q, k, min_stride_index as int);
            }
        }
        let t = self.ready_queue[min_stride_index];
        t.priority > 0 && t.stride <= usize::MAX - BIG_STRIDE / t.priority
    }

    /// Whether [`TaskManager::fetch`] could run once `task` is added at the
    /// back of the ready queue (as when the running task gives the processor up).
    pub fn can_fetch_after_add(&self, task: TaskEntry) -> (ok: bool)
        ensures
            ok == can_fetch(self@.push(task)),
    {
        let len = self.ready_queue.len();
        let ghost q = self.ready_queue@;
        let ghost q2 = q.push(task);
        let mut min_stride_index: usize = 0;
        let mut min_stride: usize = usize::MAX;
        let mut found = false;
        let mut i: usize = 0;
        while i < len
            invariant
                len == q.len(),
                q == self.ready_queue@,
                i <= len,
                forall|p: int| 0 <= p < i ==> min_stride <= #[trigger] q[p].stride,
                !found ==> i == 0,
                found ==> min_stride_index < i && q[min_stride_index as int].stride == min_stride && forall|p: int|
                    0 <= p < min_stride_index ==> #[trigger] q[p].stride > min_stride,
            decreases len - i,
        {
            let stride = self.ready_queue[i].stride;
            if !found || stride < min_stride {
                min_stride = stride;
                min_stride_index = i;
                found = true;
            }
            i = i + 1;
        }
        let t = if found && min_stride <= task.stride {
            self.ready_queue[min_stride_index]
        } else {
            task
        };
        proof {
            let k: int = if found && min_stride <= task.stride {
                min_stride_index as int
            } else {
                len as int
            };
            assert(q2[len as int] == task);
            assert forall|p: int| 0 <= p < len implies q2[p] == q[p] by {}
            assert(is_first_min(q2, k)) by {
                assert forall|p: int| 0 <= p < q2.len() implies q2[k].stride <= #[trigger] q2[p].stride by {
                    if p < len {
                        assert(q2[p] == q[p]);
                    }
                }
                assert forall|p: int| 0 <= p < k implies #[trigger] q2[p].stride > q2[k].stride by {
                    assert(q2[p] == q[p]);
                }
            }
            assert(q2[k] == t);
            assert forall|j: int| #[trigger] is_first_min(q2, j) implies j == k by {
                law_first_min_unique(q2, j, k);
            }
        }
        t.priority > 0 && t.stride <= usize::MAX - BIG_STRIDE / t.priority
    }

    /// Removes the ready task with the smallest stride (the earliest among
    /// equal strides) and returns it with its stride advanced by
    /// `BIG_STRIDE / priority`; `None` when nothing is ready.
    pub fn fetch(&mut self) -> (task: Option<TaskEntry>)
        requires
            can_fetch(old(self)@),
        ensures
            old(self)@.len() == 0 <==> task is None,
            old(self)@.len() == 0 ==> final(self)@ == old(self)@,
            task matches Some(t) ==> exists|k: int|
                #[trigger] is_first_min(old(self)@, k) && t == advanced(old(self)@[k]) && final(self)@
                    == old(self)@.remove(k),
    {
        let len = self.ready_queue.len();
        if len == 0 {
            return None;
        }
        let ghost q = self.ready_queue@;
        let mut min_stride_index: usize = 0;
        let mut min_stride: usize = usize::MAX;
        let mut i: usize = 0;
        while i < len
            invariant
                len == q.len(),
                q == self.ready_queue@,
                i <= len,
                min_stride_index < len,
                forall|p: int| 0 <= p < i ==> min_stride <= #[trigger] q[p].stride,
                min_stride == usize::MAX ==> min_stride_index == 0,
                min_stride != usize::MAX ==> min_stride_index < i && q[min_stride_index as int].stride
                    == min_stride && forall|p: int|
                    0 <= p < min_stride_index ==> #[trigger] q[p].stride > min_stride,
            decreases len - i,
        {
            let stride = self.ready_queue[i].stride;
            if stride < min_stride {
                min_stride = stride;
                min_stride_index = i;
            }
            i = i + 1;
        }
        assert(is_first_min(q, min_stride_index as int));
        let selected = self.ready_queue.remove(min_stride_index);
        match selected {
            Some(t) => {
                let pass = BIG_STRIDE / t.priority;
                let mut task = t;
                task.stride = t.stride + pass;
                Some(task)
            },
            None => None,
        }
    }
}

/// The task `fetch` picks has a stride no greater than any other ready task,
/// and it is the only position with that property that no earlier task shares:
/// the choice is determined by the queue.
pub proof fn law_first_min_unique(q: Seq<TaskEntry>, k1: int, k2: int)
    requires
        is_first_min(q, k1),
        is_first_min(q, k2),
    ensures
        k1 == k2,
{
    if k1 < k2 {
        assert(q[k1].stride > q[k2].stride);
    } else if k2 < k1 {
        assert(q[k2].stride > q[k1].stride);
    }
}

/// A nonempty queue always has a task for `fetch` to pick.
pub proof fn law_first_min_exists(q: Seq<TaskEntry>)
    requires
        q.len() > 0,
    ensures
        exists|k: int| is_first_min(q, k),
    decreases q.len(),
{
    if q.len() == 1 {
        assert(is_first_min(q, 0));
    } else {
        let r = q.drop_last();
        law_first_min_exists(r);
        let k = choose|k: int| is_first_min(r, k);
        assert(r[k] == q[k]);
        if q.last().stride < q[k].stride {
            let n = q.len() - 1;
            assert forall|i: int| 0 <= i < n implies #[trigger] q[i].stride > q[n].stride by {
                assert(r[i] == q[i]);
            }
            assert(is_first_min(q, n));
        } else {
            assert forall|i: int| 0 <= i < q.len() implies q[k].stride <= #[trigger] q[i].stride by {
                if i < q.len() - 1 {
                    assert(r[i] == q[i]);
                }
            }
            assert forall|i: int| 0 <= i < k implies #[trigger] q[i].stride > q[k].stride by {
                assert(r[i] == q[i]);
            }
            assert(is_first_min(q, k));
        }
    }
}

} // verus!
