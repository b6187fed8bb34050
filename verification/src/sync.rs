//! Synchronisation objects of one process: mutexes (spinning or blocking),
//! counting semaphores and condition variables, the resources each thread holds,
//! and the deadlock check that guards `lock` and `down`.
//!
//! Blocking is expressed by the returned [`Step`]; threads that an `unlock`,
//! `up` or `signal` wakes are appended to `ready`.
use crate::banker::{is_safe, is_safe_state, rows_view, column_total, law_safe_when_one_finishes_first};
use crate::slots::{alloc_slot, slot_for, placed, lemma_slot_for_deep};
use std::collections::VecDeque;
use vstd::prelude::*;

verus! {

/// Error code of a `lock` or `down` refused by the deadlock check.
pub const DEADLOCK_ERROR: isize = -0xDEAD;

/// What the calling thread does after a system call.
#[derive(Clone, Copy, Debug, PartialEq, Eq, Structural)]
pub enum Step {
    /// The call returns this value to the thread now.
    Return(isize),
    /// The thread sleeps until something wakes it; the call then returns 0.
    Block,
    /// The thread gives up the processor and tries again later: a spinning
    /// mutex with [`mutex_lock_retry`], any other call by issuing it again.
    Yield,
}

/// A mutex: `blocking` ones queue their waiters, the others make them spin.
pub struct MutexObj {
    pub blocking: bool,
    pub locked: bool,
    /// Waiting threads, each with whether it records the mutex as held once it gets it.
    pub wait_queue: VecDeque<(usize, bool)>,
}

/// A counting semaphore; a negative count is the number of waiters.
pub struct SemaphoreObj {
    pub count: isize,
    pub wait_queue: VecDeque<usize>,
}

/// A condition variable.
pub struct CondvarObj {
    pub wait_queue: VecDeque<usize>,
}

/// The resources a thread holds.
pub struct ThreadRes {
    pub held_mutexes: Vec<usize>,
    pub held_semaphores: Vec<usize>,
}

/// A pending wake-up: thread `tid` sleeps until time `expire_ms`.
#[derive(Clone, Copy, Debug, PartialEq, Eq, Structural)]
pub struct TimerEntry {
    pub expire_ms: usize,
    pub tid: usize,
}

/// The synchronisation state of one process; `tasks` is indexed by thread id.
pub struct ProcessSync {
    pub mutex_list: Vec<Option<MutexObj>>,
    pub semaphore_list: Vec<Option<SemaphoreObj>>,
    pub condvar_list: Vec<Option<CondvarObj>>,
    pub tasks: Vec<Option<ThreadRes>>,
    pub deadlock_detection_enabled: bool,
    /// Threads woken, in the order they were woken.
    pub ready: Vec<usize>,
    pub timers: Vec<TimerEntry>,
}

/// A mutex as the contracts see it.
pub struct MutexModel {
    pub blocking: bool,
    pub locked: bool,
    pub waiters: Seq<(usize, bool)>,
}

/// A semaphore as the contracts see it.
pub struct SemaphoreModel {
    pub count: isize,
    pub waiters: Seq<usize>,
}

/// What a thread holds, as the contracts see it.
pub struct ThreadModel {
    pub held_mutexes: Seq<usize>,
    pub held_semaphores: Seq<usize>,
}

/// A process's synchronisation state as the contracts see it.
pub struct SyncModel {
    pub mutexes: Seq<Option<MutexModel>>,
    pub semaphores: Seq<Option<SemaphoreModel>>,
    pub condvars: Seq<Option<Seq<usize>>>,
    pub tasks: Seq<Option<ThreadModel>>,
    pub detection: bool,
    pub ready: Seq<usize>,
    pub timers: Seq<TimerEntry>,
}

impl DeepView for MutexObj {
    type V = MutexModel;

    open spec fn deep_view(&self) -> MutexModel {
        MutexModel { blocking: self.blocking, locked: self.locked, waiters: self.wait_queue@ }
    }
}

impl DeepView for SemaphoreObj {
    type V = SemaphoreModel;

    open spec fn deep_view(&self) -> SemaphoreModel {
        SemaphoreModel { count: self.count, waiters: self.wait_queue@ }
    }
}

impl DeepView for CondvarObj {
    type V = Seq<usize>;

    open spec fn deep_view(&self) -> Seq<usize> {
        self.wait_queue@
    }
}

impl DeepView for ThreadRes {
    type V = ThreadModel;

    open spec fn deep_view(&self) -> ThreadModel {
        ThreadModel { held_mutexes: self.held_mutexes@, held_semaphores: self.held_semaphores@ }
    }
}

impl View for ProcessSync {
    type V = SyncModel;

    open spec fn view(&self) -> SyncModel {
        SyncModel {
            mutexes: self.mutex_list.deep_view(),
            semaphores: self.semaphore_list.deep_view(),
            condvars: self.condvar_list.deep_view(),
            tasks: self.tasks.deep_view(),
            detection: self.deadlock_detection_enabled,
            ready: self.ready@,
            timers: self.timers@,
        }
    }
}

// ----- the model -----

/// `h` with `x` added unless it is there already.
pub open spec fn held_insert(h: Seq<usize>, x: usize) -> Seq<usize> {
    if h.contains(x) {
        h
    } else {
        h.push(x)
    }
}

/// `h` without any occurrence of `x`.
pub open spec fn held_remove(h: Seq<usize>, x: usize) -> Seq<usize> {
    h.filter(|y: usize| y != x)
}

pub open spec fn valid_thread(s: SyncModel, t: int) -> bool {
    0 <= t < s.tasks.len() && s.tasks[t] is Some
}

pub open spec fn thread_of(s: SyncModel, t: int) -> ThreadModel {
    s.tasks[t]->Some_0
}

pub open spec fn valid_mutex(s: SyncModel, id: int) -> bool {
    0 <= id < s.mutexes.len() && s.mutexes[id] is Some
}

pub open spec fn mutex_of(s: SyncModel, id: int) -> MutexModel {
    s.mutexes[id]->Some_0
}

pub open spec fn valid_semaphore(s: SyncModel, id: int) -> bool {
    0 <= id < s.semaphores.len() && s.semaphores[id] is Some
}

pub open spec fn semaphore_of(s: SyncModel, id: int) -> SemaphoreModel {
    s.semaphores[id]->Some_0
}

pub open spec fn valid_condvar(s: SyncModel, id: int) -> bool {
    0 <= id < s.condvars.len() && s.condvars[id] is Some
}

pub open spec fn condvar_of(s: SyncModel, id: int) -> Seq<usize> {
    s.condvars[id]->Some_0
}

pub open spec fn set_mutex(s: SyncModel, id: int, m: MutexModel) -> SyncModel {
    SyncModel { mutexes: s.mutexes.update(id, Some(m)), ..s }
}

pub open spec fn set_semaphore(s: SyncModel, id: int, m: SemaphoreModel) -> SyncModel {
    SyncModel { semaphores: s.semaphores.update(id, Some(m)), ..s }
}

pub open spec fn set_condvar(s: SyncModel, id: int, q: Seq<usize>) -> SyncModel {
    SyncModel { condvars: s.condvars.update(id, Some(q)), ..s }
}

pub open spec fn set_thread(s: SyncModel, t: int, th: ThreadModel) -> SyncModel {
    SyncModel { tasks: s.tasks.update(t, Some(th)), ..s }
}

pub open spec fn wake(s: SyncModel, t: usize) -> SyncModel {
    SyncModel { ready: s.ready.push(t), ..s }
}

/// Thread `t` records mutex `id` among those it holds.
pub open spec fn record_mutex(s: SyncModel, t: int, id: usize) -> SyncModel {
    set_thread(
        s,
        t,
        ThreadModel { held_mutexes: held_insert(thread_of(s, t).held_mutexes, id), ..thread_of(s, t) },
    )
}

/// Thread `t` no longer records mutex `id` as held.
pub open spec fn forget_mutex(s: SyncModel, t: int, id: usize) -> SyncModel {
    set_thread(
        s,
        t,
        ThreadModel { held_mutexes: held_remove(thread_of(s, t).held_mutexes, id), ..thread_of(s, t) },
    )
}

/// Thread `t` records semaphore `id` among those it holds.
pub open spec fn record_semaphore(s: SyncModel, t: int, id: usize) -> SyncModel {
    set_thread(
        s,
        t,
        ThreadModel {
            held_semaphores: held_insert(thread_of(s, t).held_semaphores, id),
            ..thread_of(s, t)
        },
    )
}

/// Thread `t` no longer records semaphore `id` as held.
pub open spec fn forget_semaphore(s: SyncModel, t: int, id: usize) -> SyncModel {
    set_thread(
        s,
        t,
        ThreadModel {
            held_semaphores: held_remove(thread_of(s, t).held_semaphores, id),
            ..thread_of(s, t)
        },
    )
}

/// Thread `t` tries to take mutex `id`: a free mutex becomes locked (and
/// recorded as held when `record`); a locked blocking mutex queues the thread,
/// a locked spinning one makes it try again.
pub open spec fn lock_step(s: SyncModel, t: usize, id: usize, record: bool) -> (SyncModel, Step) {
    let m = mutex_of(s, id as int);
    if !m.locked {
        let s1 = set_mutex(s, id as int, MutexModel { locked: true, ..m });
        (if record {
            record_mutex(s1, t as int, id)
        } else {
            s1
        }, Step::Return(0))
    } else if m.blocking {
        (set_mutex(s, id as int, MutexModel { waiters: m.waiters.push((t, record)), ..m }), Step::Block)
    } else {
        (s, Step::Yield)
    }
}

/// Mutex `id` is released: a blocking mutex with waiters passes straight to
/// the first of them, who is woken (and records it when it asked to);
/// otherwise the mutex becomes free.
pub open spec fn unlock_step(s: SyncModel, id: usize) -> SyncModel {
    let m = mutex_of(s, id as int);
    if m.blocking && m.waiters.len() > 0 {
        let w = m.waiters[0];
        let s1 = wake(set_mutex(s, id as int, MutexModel { waiters: m.waiters.drop_first(), ..m }), w.0);
        if w.1 {
            record_mutex(s1, w.0 as int, id)
        } else {
            s1
        }
    } else {
        set_mutex(s, id as int, MutexModel { locked: false, ..m })
    }
}

/// `up` on semaphore `id`: the count grows by one and, when that leaves it
/// non-positive, the first waiter is woken and records the semaphore.
pub open spec fn up_step(s: SyncModel, id: usize) -> SyncModel {
    let m = semaphore_of(s, id as int);
    let c = (m.count + 1) as isize;
    if c <= 0 && m.waiters.len() > 0 {
        let w = m.waiters[0];
        record_semaphore(
            wake(set_semaphore(s, id as int, SemaphoreModel { count: c, waiters: m.waiters.drop_first() }), w),
            w as int,
            id,
        )
    } else {
        set_semaphore(s, id as int, SemaphoreModel { count: c, ..m })
    }
}

/// `down` on semaphore `id` by thread `t`: the count drops by one; a negative
/// count queues the thread, otherwise it records the semaphore and goes on.
pub open spec fn down_step(s: SyncModel, t: usize, id: usize) -> (SyncModel, Step) {
    let m = semaphore_of(s, id as int);
    let c = (m.count - 1) as isize;
    if c < 0 {
        (set_semaphore(s, id as int, SemaphoreModel { count: c, waiters: m.waiters.push(t) }), Step::Block)
    } else {
        (record_semaphore(set_semaphore(s, id as int, SemaphoreModel { count: c, ..m }), t as int, id), Step::Return(0))
    }
}

/// What a thread records about the locks it holds is consistent with the tables.
pub open spec fn thread_wf(s: SyncModel, th: ThreadModel) -> bool {
    &&& th.held_mutexes.no_duplicates()
    &&& forall|k: int| 0 <= k < th.held_mutexes.len() ==> valid_mutex(s, #[trigger] th.held_mutexes[k] as int)
    &&& th.held_semaphores.no_duplicates()
    &&& forall|k: int|
        0 <= k < th.held_semaphores.len() ==> valid_semaphore(s, #[trigger] th.held_semaphores[k] as int)
}

/// The invariant of the synchronisation state: held resources and waiters
/// name existing objects and threads, and thread ids fit in an `isize`.
pub open spec fn sync_wf(s: SyncModel) -> bool {
    &&& s.tasks.len() <= isize::MAX
    &&& forall|t: int| #[trigger] valid_thread(s, t) ==> thread_wf(s, thread_of(s, t))
    &&& forall|id: int, k: int|
        valid_mutex(s, id) && 0 <= k < mutex_of(s, id).waiters.len() ==> valid_thread(
            s,
            #[trigger] mutex_of(s, id).waiters[k].0 as int,
        )
    &&& forall|id: int, k: int|
        valid_semaphore(s, id) && 0 <= k < semaphore_of(s, id).waiters.len() ==> valid_thread(
            s,
            #[trigger] semaphore_of(s, id).waiters[k] as int,
        )
    &&& forall|id: int, k: int|
        valid_condvar(s, id) && 0 <= k < condvar_of(s, id).len() ==> valid_thread(
            s,
            #[trigger] condvar_of(s, id)[k] as int,
        )
}


/// Thread `t` waits in the queue of a mutex, a semaphore or a condition
/// variable; a thread that makes a system call is running, so waits in none.
pub open spec fn is_waiting(s: SyncModel, t: usize) -> bool {
    ||| exists|id: int, k: int|
        valid_mutex(s, id) && 0 <= k < mutex_of(s, id).waiters.len() && #[trigger] mutex_of(s, id).waiters[k].0 == t
    ||| exists|id: int, k: int|
        valid_semaphore(s, id) && 0 <= k < semaphore_of(s, id).waiters.len() && #[trigger] semaphore_of(
            s,
            id,
        ).waiters[k] == t
    ||| exists|id: int, k: int|
        valid_condvar(s, id) && 0 <= k < condvar_of(s, id).len() && #[trigger] condvar_of(s, id)[k] == t
}

// ----- held lists -----

proof fn lemma_held_remove(h: Seq<usize>, x: usize)
    ensures
        forall|y: usize| held_remove(h, x).contains(y) <==> (h.contains(y) && y != x),
        h.no_duplicates() ==> held_remove(h, x).no_duplicates(),
    decreases h.len(),
{
    reveal(Seq::filter);
    if h.len() > 0 {
        let t = h.drop_last();
        lemma_held_remove(t, x);
        assert(t.no_duplicates() <== h.no_duplicates()) by {
            if h.no_duplicates() {
                assert forall|a: int, b: int| 0 <= a < t.len() && 0 <= b < t.len() && a != b implies t[a] != t[b] by {
                    assert(t[a] == h[a] && t[b] == h[b]);
                }
            }
        }
        let r = held_remove(t, x);
        assert forall|y: usize| held_remove(h, x).contains(y) <==> (h.contains(y) && y != x) by {
            if h.contains(y) && y != x {
                let a = choose|a: int| 0 <= a < h.len() && h[a] == y;
                if a < h.len() - 1 {
                    assert(t[a] == y);
                    assert(t.contains(y));
                    assert(r.contains(y));
                    let b = choose|b: int| 0 <= b < r.len() && r[b] == y;
                    if h.last() != x {
                        assert(held_remove(h, x) == r.push(h.last()));
                        assert(held_remove(h, x)[b] == y);
                    } else {
                        assert(held_remove(h, x) == r);
                    }
                } else {
                    assert(held_remove(h, x) == r.push(h.last()));
                    assert(held_remove(h, x)[r.len() as int] == y);
                }
            }
            if held_remove(h, x).contains(y) {
                let b = choose|b: int| 0 <= b < held_remove(h, x).len() && held_remove(h, x)[b] == y;
                if h.last() != x {
                    assert(held_remove(h, x) == r.push(h.last()));
                    if b < r.len() {
                        assert(r[b] == y);
                        assert(r.contains(y));
                        assert(t.contains(y));
                        let a = choose|a: int| 0 <= a < t.len() && t[a] == y;
                        assert(h[a] == y);
                    } else {
                        assert(h[h.len() - 1] == y);
                    }
                } else {
                    assert(held_remove(h, x) == r);
                    assert(r.contains(y));
                    assert(t.contains(y));
                    let a = choose|a: int| 0 <= a < t.len() && t[a] == y;
                    assert(h[a] == y);
                }
            }
        }
        if h.no_duplicates() && h.last() != x {
            assert(held_remove(h, x) == r.push(h.last()));
            assert(!t.contains(h.last())) by {
                if t.contains(h.last()) {
                    let a = choose|a: int| 0 <= a < t.len() && t[a] == h.last();
                    assert(h[a] == h[h.len() - 1]);
                }
            }
            assert(!r.contains(h.last()));
            let rr = r.push(h.last());
            assert forall|a: int, b: int| 0 <= a < rr.len() && 0 <= b < rr.len() && a != b implies rr[a] != rr[b] by {
                if a < r.len() && b < r.len() {
                } else if a < r.len() {
                    assert(r.contains(rr[a]));
                } else if b < r.len() {
                    assert(r.contains(rr[b]));
                }
            }
        }
    }
}

proof fn lemma_held_insert(h: Seq<usize>, x: usize)
    ensures
        forall|y: usize| held_insert(h, x).contains(y) <==> (h.contains(y) || y == x),
        h.no_duplicates() ==> held_insert(h, x).no_duplicates(),
{
    if !h.contains(x) {
        let r = h.push(x);
        assert forall|y: usize| r.contains(y) <==> (h.contains(y) || y == x) by {
            if r.contains(y) {
                let a = choose|a: int| 0 <= a < r.len() && r[a] == y;
                if a < h.len() {
                    assert(h[a] == y);
                }
            }
            if h.contains(y) {
                let a = choose|a: int| 0 <= a < h.len() && h[a] == y;
                assert(r[a] == y);
            }
            if y == x {
                assert(r[h.len() as int] == y);
            }
        }
        if h.no_duplicates() {
            assert forall|a: int, b: int| 0 <= a < r.len() && 0 <= b < r.len() && a != b implies r[a] != r[b] by {
                if a < h.len() && b < h.len() {
                } else if a < h.len() {
                    assert(h.contains(r[a]));
                } else if b < h.len() {
                    assert(h.contains(r[b]));
                }
            }
        }
    }
}

fn held_insert_exec(h: &mut Vec<usize>, x: usize)
    ensures
        final(h)@ == held_insert(old(h)@, x),
{
    let mut i: usize = 0;
    let len = h.len();
    while i < len
        invariant
            len == h@.len(),
            h@ == old(h)@,
            i <= len,
            forall|k: int| 0 <= k < i ==> h@[k] != x,
        decreases len - i,
    {
        if h[i] == x {
            assert(h@.contains(x));
            return;
        }
        i = i + 1;
    }
    assert(!h@.contains(x));
    h.push(x);
}

fn held_remove_exec(h: &Vec<usize>, x: usize) -> (r: Vec<usize>)
    ensures
        r@ == held_remove(h@, x),
{
    let mut r: Vec<usize> = Vec::new();
    let mut i: usize = 0;
    while i < h.len()
        invariant
            i <= h@.len(),
            r@ == held_remove(h@.take(i as int), x),
        decreases h@.len() - i,
    {
        proof {
            reveal(Seq::filter);
            assert(h@.take(i as int + 1).drop_last() =~= h@.take(i as int));
        }
        if h[i] != x {
            r.push(h[i]);
        }
        i = i + 1;
    }
    assert(h@.take(h@.len() as int) =~= h@);
    r
}


// ----- the invariant is kept by each elementary change -----

proof fn lemma_wf_set_mutex(s: SyncModel, id: int, m: MutexModel)
    requires
        sync_wf(s),
        valid_mutex(s, id),
        forall|k: int| 0 <= k < m.waiters.len() ==> valid_thread(s, #[trigger] m.waiters[k].0 as int),
    ensures
        sync_wf(set_mutex(s, id, m)),
{
    let s2 = set_mutex(s, id, m);
    assert forall|t: int| #[trigger] valid_thread(s2, t) implies thread_wf(s2, thread_of(s2, t)) by {
        assert(valid_thread(s, t));
        let th = thread_of(s, t);
        assert forall|k: int| 0 <= k < th.held_mutexes.len() implies valid_mutex(
            s2,
            #[trigger] th.held_mutexes[k] as int,
        ) by {
            assert(valid_mutex(s, th.held_mutexes[k] as int));
        }
    }
    assert forall|i: int, k: int|
        valid_mutex(s2, i) && 0 <= k < mutex_of(s2, i).waiters.len() implies valid_thread(
        s2,
        #[trigger] mutex_of(s2, i).waiters[k].0 as int,
    ) by {
        if i != id {
            assert(valid_mutex(s, i));
            assert(valid_thread(s, mutex_of(s, i).waiters[k].0 as int));
        }
    }
    assert forall|i: int, k: int|
        valid_semaphore(s2, i) && 0 <= k < semaphore_of(s2, i).waiters.len() implies valid_thread(
        s2,
        #[trigger] semaphore_of(s2, i).waiters[k] as int,
    ) by {
        assert(valid_semaphore(s, i));
        assert(valid_thread(s, semaphore_of(s, i).waiters[k] as int));
    }
    assert forall|i: int, k: int|
        valid_condvar(s2, i) && 0 <= k < condvar_of(s2, i).len() implies valid_thread(
        s2,
        #[trigger] condvar_of(s2, i)[k] as int,
    ) by {
        assert(valid_condvar(s, i));
        assert(valid_thread(s, condvar_of(s, i)[k] as int));
    }
}

proof fn lemma_wf_set_semaphore(s: SyncModel, id: int, m: SemaphoreModel)
    requires
        sync_wf(s),
        valid_semaphore(s, id),
        forall|k: int| 0 <= k < m.waiters.len() ==> valid_thread(s, #[trigger] m.waiters[k] as int),
    ensures
        sync_wf(set_semaphore(s, id, m)),
{
    let s2 = set_semaphore(s, id, m);
    assert forall|t: int| #[trigger] valid_thread(s2, t) implies thread_wf(s2, thread_of(s2, t)) by {
        assert(valid_thread(s, t));
        let th = thread_of(s, t);
        assert forall|k: int| 0 <= k < th.held_semaphores.len() implies valid_semaphore(
            s2,
            #[trigger] th.held_semaphores[k] as int,
        ) by {
            assert(valid_semaphore(s, th.held_semaphores[k] as int));
        }
    }
    assert forall|i: int, k: int|
        valid_semaphore(s2, i) && 0 <= k < semaphore_of(s2, i).waiters.len() implies valid_thread(
        s2,
        #[trigger] semaphore_of(s2, i).waiters[k] as int,
    ) by {
        if i != id {
            assert(valid_semaphore(s, i));
            assert(valid_thread(s, semaphore_of(s, i).waiters[k] as int));
        }
    }
    assert forall|i: int, k: int|
        valid_mutex(s2, i) && 0 <= k < mutex_of(s2, i).waiters.len() implies valid_thread(
        s2,
        #[trigger] mutex_of(s2, i).waiters[k].0 as int,
    ) by {
        assert(valid_mutex(s, i));
        assert(valid_thread(s, mutex_of(s, i).waiters[k].0 as int));
    }
    assert forall|i: int, k: int|
        valid_condvar(s2, i) && 0 <= k < condvar_of(s2, i).len() implies valid_thread(
        s2,
        #[trigger] condvar_of(s2, i)[k] as int,
    ) by {
        assert(valid_condvar(s, i));
        assert(valid_thread(s, condvar_of(s, i)[k] as int));
    }
}

proof fn lemma_wf_set_condvar(s: SyncModel, id: int, q: Seq<usize>)
    requires
        sync_wf(s),
        0 <= id < s.condvars.len(),
        forall|k: int| 0 <= k < q.len() ==> valid_thread(s, #[trigger] q[k] as int),
    ensures
        sync_wf(set_condvar(s, id, q)),
{
    let s2 = set_condvar(s, id, q);
    assert forall|t: int| #[trigger] valid_thread(s2, t) implies thread_wf(s2, thread_of(s2, t)) by {
        assert(valid_thread(s, t));
    }
    assert forall|i: int, k: int|
        valid_condvar(s2, i) && 0 <= k < condvar_of(s2, i).len() implies valid_thread(
        s2,
        #[trigger] condvar_of(s2, i)[k] as int,
    ) by {
        if i != id {
            assert(valid_condvar(s, i));
            assert(valid_thread(s, condvar_of(s, i)[k] as int));
        }
    }
    assert forall|i: int, k: int|
        valid_mutex(s2, i) && 0 <= k < mutex_of(s2, i).waiters.len() implies valid_thread(
        s2,
        #[trigger] mutex_of(s2, i).waiters[k].0 as int,
    ) by {
        assert(valid_mutex(s, i));
        assert(valid_thread(s, mutex_of(s, i).waiters[k].0 as int));
    }
    assert forall|i: int, k: int|
        valid_semaphore(s2, i) && 0 <= k < semaphore_of(s2, i).waiters.len() implies valid_thread(
        s2,
        #[trigger] semaphore_of(s2, i).waiters[k] as int,
    ) by {
        assert(valid_semaphore(s, i));
        assert(valid_thread(s, semaphore_of(s, i).waiters[k] as int));
    }
}

proof fn lemma_wf_set_thread(s: SyncModel, t: int, th: ThreadModel)
    requires
        sync_wf(s),
        valid_thread(s, t),
        thread_wf(s, th),
    ensures
        sync_wf(set_thread(s, t, th)),
{
    let s2 = set_thread(s, t, th);
    assert forall|u: int| #[trigger] valid_thread(s2, u) implies thread_wf(s2, thread_of(s2, u)) by {
        if u != t {
            assert(valid_thread(s, u));
        }
    }
    assert forall|i: int, k: int|
        valid_mutex(s2, i) && 0 <= k < mutex_of(s2, i).waiters.len() implies valid_thread(
        s2,
        #[trigger] mutex_of(s2, i).waiters[k].0 as int,
    ) by {
        assert(valid_mutex(s, i));
        assert(valid_thread(s, mutex_of(s, i).waiters[k].0 as int));
    }
    assert forall|i: int, k: int|
        valid_semaphore(s2, i) && 0 <= k < semaphore_of(s2, i).waiters.len() implies valid_thread(
        s2,
        #[trigger] semaphore_of(s2, i).waiters[k] as int,
    ) by {
        assert(valid_semaphore(s, i));
        assert(valid_thread(s, semaphore_of(s, i).waiters[k] as int));
    }
    assert forall|i: int, k: int|
        valid_condvar(s2, i) && 0 <= k < condvar_of(s2, i).len() implies valid_thread(
        s2,
        #[trigger] condvar_of(s2, i)[k] as int,
    ) by {
        assert(valid_condvar(s, i));
        assert(valid_thread(s, condvar_of(s, i)[k] as int));
    }
}

proof fn lemma_wf_record_mutex(s: SyncModel, t: int, id: usize)
    requires
        sync_wf(s),
        valid_thread(s, t),
        valid_mutex(s, id as int),
    ensures
        sync_wf(record_mutex(s, t, id)),
{
    let th = thread_of(s, t);
    assert(thread_wf(s, th));
    lemma_held_insert(th.held_mutexes, id);
    let h = held_insert(th.held_mutexes, id);
    assert forall|k: int| 0 <= k < h.len() implies valid_mutex(s, #[trigger] h[k] as int) by {
        assert(h.contains(h[k]));
        if h[k] != id {
            assert(th.held_mutexes.contains(h[k]));
            let a = choose|a: int| 0 <= a < th.held_mutexes.len() && th.held_mutexes[a] == h[k];
            assert(valid_mutex(s, th.held_mutexes[a] as int));
        }
    }
    lemma_wf_set_thread(s, t, ThreadModel { held_mutexes: h, ..th });
}

proof fn lemma_wf_forget_mutex(s: SyncModel, t: int, id: usize)
    requires
        sync_wf(s),
        valid_thread(s, t),
    ensures
        sync_wf(forget_mutex(s, t, id)),
{
    let th = thread_of(s, t);
    assert(thread_wf(s, th));
    lemma_held_remove(th.held_mutexes, id);
    let h = held_remove(th.held_mutexes, id);
    assert forall|k: int| 0 <= k < h.len() implies valid_mutex(s, #[trigger] h[k] as int) by {
        assert(h.contains(h[k]));
        assert(th.held_mutexes.contains(h[k]));
        let a = choose|a: int| 0 <= a < th.held_mutexes.len() && th.held_mutexes[a] == h[k];
        assert(valid_mutex(s, th.held_mutexes[a] as int));
    }
    lemma_wf_set_thread(s, t, ThreadModel { held_mutexes: h, ..th });
}

proof fn lemma_wf_record_semaphore(s: SyncModel, t: int, id: usize)
    requires
        sync_wf(s),
        valid_thread(s, t),
        valid_semaphore(s, id as int),
    ensures
        sync_wf(record_semaphore(s, t, id)),
{
    let th = thread_of(s, t);
    assert(thread_wf(s, th));
    lemma_held_insert(th.held_semaphores, id);
    let h = held_insert(th.held_semaphores, id);
    assert forall|k: int| 0 <= k < h.len() implies valid_semaphore(s, #[trigger] h[k] as int) by {
        assert(h.contains(h[k]));
        if h[k] != id {
            assert(th.held_semaphores.contains(h[k]));
            let a = choose|a: int| 0 <= a < th.held_semaphores.len() && th.held_semaphores[a] == h[k];
            assert(valid_semaphore(s, th.held_semaphores[a] as int));
        }
    }
    lemma_wf_set_thread(s, t, ThreadModel { held_semaphores: h, ..th });
}

proof fn lemma_wf_forget_semaphore(s: SyncModel, t: int, id: usize)
    requires
        sync_wf(s),
        valid_thread(s, t),
    ensures
        sync_wf(forget_semaphore(s, t, id)),
{
    let th = thread_of(s, t);
    assert(thread_wf(s, th));
    lemma_held_remove(th.held_semaphores, id);
    let h = held_remove(th.held_semaphores, id);
    assert forall|k: int| 0 <= k < h.len() implies valid_semaphore(s, #[trigger] h[k] as int) by {
        assert(h.contains(h[k]));
        assert(th.held_semaphores.contains(h[k]));
        let a = choose|a: int| 0 <= a < th.held_semaphores.len() && th.held_semaphores[a] == h[k];
        assert(valid_semaphore(s, th.held_semaphores[a] as int));
    }
    lemma_wf_set_thread(s, t, ThreadModel { held_semaphores: h, ..th });
}

/// Every step of a mutex keeps the invariant.
pub proof fn law_lock_keeps_wf(s: SyncModel, t: usize, id: usize, record: bool)
    requires
        sync_wf(s),
        valid_thread(s, t as int),
        valid_mutex(s, id as int),
    ensures
        sync_wf(lock_step(s, t, id, record).0),
{
    let m = mutex_of(s, id as int);
    if !m.locked {
        let m2 = MutexModel { locked: true, ..m };
        assert forall|k: int| 0 <= k < m2.waiters.len() implies valid_thread(s, #[trigger] m2.waiters[k].0 as int) by {
            assert(valid_thread(s, mutex_of(s, id as int).waiters[k].0 as int));
        }
        lemma_wf_set_mutex(s, id as int, m2);
        if record {
            lemma_wf_record_mutex(set_mutex(s, id as int, m2), t as int, id);
        }
    } else if m.blocking {
        let m2 = MutexModel { waiters: m.waiters.push((t, record)), ..m };
        assert forall|k: int| 0 <= k < m2.waiters.len() implies valid_thread(s, #[trigger] m2.waiters[k].0 as int) by {
            if k < m.waiters.len() {
                assert(valid_thread(s, mutex_of(s, id as int).waiters[k].0 as int));
            }
        }
        lemma_wf_set_mutex(s, id as int, m2);
    }
}

/// Releasing a mutex keeps the invariant.
pub proof fn law_unlock_keeps_wf(s: SyncModel, id: usize)
    requires
        sync_wf(s),
        valid_mutex(s, id as int),
    ensures
        sync_wf(unlock_step(s, id)),
{
    let m = mutex_of(s, id as int);
    if m.blocking && m.waiters.len() > 0 {
        let w = m.waiters[0];
        let m2 = MutexModel { waiters: m.waiters.drop_first(), ..m };
        assert forall|k: int| 0 <= k < m2.waiters.len() implies valid_thread(s, #[trigger] m2.waiters[k].0 as int) by {
            assert(m2.waiters[k] == m.waiters[k + 1]);
            assert(valid_thread(s, mutex_of(s, id as int).waiters[k + 1].0 as int));
        }
        assert(valid_thread(s, mutex_of(s, id as int).waiters[0].0 as int));
        lemma_wf_set_mutex(s, id as int, m2);
        let s1 = wake(set_mutex(s, id as int, m2), w.0);
        assert(sync_wf(s1)) by {
            let s0 = set_mutex(s, id as int, m2);
            assert forall|t: int| #[trigger] valid_thread(s1, t) implies thread_wf(s1, thread_of(s1, t)) by {
                assert(valid_thread(s0, t));
            }
            assert forall|i: int, k: int|
                valid_mutex(s1, i) && 0 <= k < mutex_of(s1, i).waiters.len() implies valid_thread(
                s1,
                #[trigger] mutex_of(s1, i).waiters[k].0 as int,
            ) by {
                assert(valid_mutex(s0, i));
                assert(valid_thread(s0, mutex_of(s0, i).waiters[k].0 as int));
            }
            assert forall|i: int, k: int|
                valid_semaphore(s1, i) && 0 <= k < semaphore_of(s1, i).waiters.len() implies valid_thread(
                s1,
                #[trigger] semaphore_of(s1, i).waiters[k] as int,
            ) by {
                assert(valid_semaphore(s0, i));
                assert(valid_thread(s0, semaphore_of(s0, i).waiters[k] as int));
            }
            assert forall|i: int, k: int|
                valid_condvar(s1, i) && 0 <= k < condvar_of(s1, i).len() implies valid_thread(
                s1,
                #[trigger] condvar_of(s1, i)[k] as int,
            ) by {
                assert(valid_condvar(s0, i));
                assert(valid_thread(s0, condvar_of(s0, i)[k] as int));
            }
        }
        if w.1 {
            lemma_wf_record_mutex(s1, w.0 as int, id);
        }
    } else {
        let m2 = MutexModel { locked: false, ..m };
        assert forall|k: int| 0 <= k < m2.waiters.len() implies valid_thread(s, #[trigger] m2.waiters[k].0 as int) by {
            assert(valid_thread(s, mutex_of(s, id as int).waiters[k].0 as int));
        }
        lemma_wf_set_mutex(s, id as int, m2);
    }
}


proof fn lemma_wf_wake(s: SyncModel, t: usize)
    requires
        sync_wf(s),
    ensures
        sync_wf(wake(s, t)),
{
    lemma_wf_same_tables(s, wake(s, t));
}

/// The invariant only looks at the object tables and the threads.
proof fn lemma_wf_same_tables(s: SyncModel, s2: SyncModel)
    requires
        sync_wf(s),
        s2.mutexes == s.mutexes,
        s2.semaphores == s.semaphores,
        s2.condvars == s.condvars,
        s2.tasks == s.tasks,
    ensures
        sync_wf(s2),
{
    assert forall|u: int| #[trigger] valid_thread(s2, u) implies thread_wf(s2, thread_of(s2, u)) by {
        assert(valid_thread(s, u));
    }
    assert forall|i: int, k: int|
        valid_mutex(s2, i) && 0 <= k < mutex_of(s2, i).waiters.len() implies valid_thread(
        s2,
        #[trigger] mutex_of(s2, i).waiters[k].0 as int,
    ) by {
        assert(valid_mutex(s, i));
        assert(valid_thread(s, mutex_of(s, i).waiters[k].0 as int));
    }
    assert forall|i: int, k: int|
        valid_semaphore(s2, i) && 0 <= k < semaphore_of(s2, i).waiters.len() implies valid_thread(
        s2,
        #[trigger] semaphore_of(s2, i).waiters[k] as int,
    ) by {
        assert(valid_semaphore(s, i));
        assert(valid_thread(s, semaphore_of(s, i).waiters[k] as int));
    }
    assert forall|i: int, k: int|
        valid_condvar(s2, i) && 0 <= k < condvar_of(s2, i).len() implies valid_thread(
        s2,
        #[trigger] condvar_of(s2, i)[k] as int,
    ) by {
        assert(valid_condvar(s, i));
        assert(valid_thread(s, condvar_of(s, i)[k] as int));
    }
}

/// `up` keeps the invariant.
pub proof fn law_up_keeps_wf(s: SyncModel, id: usize)
    requires
        sync_wf(s),
        valid_semaphore(s, id as int),
    ensures
        sync_wf(up_step(s, id)),
{
    let m = semaphore_of(s, id as int);
    let c = (m.count + 1) as isize;
    if c <= 0 && m.waiters.len() > 0 {
        let w = m.waiters[0];
        let m2 = SemaphoreModel { count: c, waiters: m.waiters.drop_first() };
        assert forall|k: int| 0 <= k < m2.waiters.len() implies valid_thread(s, #[trigger] m2.waiters[k] as int) by {
            assert(m2.waiters[k] == m.waiters[k + 1]);
            assert(valid_thread(s, semaphore_of(s, id as int).waiters[k + 1] as int));
        }
        assert(valid_thread(s, semaphore_of(s, id as int).waiters[0] as int));
        lemma_wf_set_semaphore(s, id as int, m2);
        lemma_wf_wake(set_semaphore(s, id as int, m2), w);
        lemma_wf_record_semaphore(wake(set_semaphore(s, id as int, m2), w), w as int, id);
    } else {
        let m2 = SemaphoreModel { count: c, ..m };
        assert forall|k: int| 0 <= k < m2.waiters.len() implies valid_thread(s, #[trigger] m2.waiters[k] as int) by {
            assert(valid_thread(s, semaphore_of(s, id as int).waiters[k] as int));
        }
        lemma_wf_set_semaphore(s, id as int, m2);
    }
}

/// `down` keeps the invariant.
pub proof fn law_down_keeps_wf(s: SyncModel, t: usize, id: usize)
    requires
        sync_wf(s),
        valid_thread(s, t as int),
        valid_semaphore(s, id as int),
    ensures
        sync_wf(down_step(s, t, id).0),
{
    let m = semaphore_of(s, id as int);
    let c = (m.count - 1) as isize;
    if c < 0 {
        let m2 = SemaphoreModel { count: c, waiters: m.waiters.push(t) };
        assert forall|k: int| 0 <= k < m2.waiters.len() implies valid_thread(s, #[trigger] m2.waiters[k] as int) by {
            if k < m.waiters.len() {
                assert(valid_thread(s, semaphore_of(s, id as int).waiters[k] as int));
            }
        }
        lemma_wf_set_semaphore(s, id as int, m2);
    } else {
        let m2 = SemaphoreModel { count: c, ..m };
        assert forall|k: int| 0 <= k < m2.waiters.len() implies valid_thread(s, #[trigger] m2.waiters[k] as int) by {
            assert(valid_thread(s, semaphore_of(s, id as int).waiters[k] as int));
        }
        lemma_wf_set_semaphore(s, id as int, m2);
        lemma_wf_record_semaphore(set_semaphore(s, id as int, m2), t as int, id);
    }
}

// ----- executable state changes -----

impl MutexObj {
    pub fn new(blocking: bool) -> (m: Self)
        ensures
            m.deep_view() == (MutexModel { blocking, locked: false, waiters: Seq::empty() }),
    {
        MutexObj { blocking, locked: false, wait_queue: VecDeque::new() }
    }
}

impl SemaphoreObj {
    /// A semaphore whose count starts at `res_count`.
    pub fn new(res_count: usize) -> (m: Self)
        ensures
            m.deep_view() == (SemaphoreModel { count: res_count as isize, waiters: Seq::empty() }),
    {
        SemaphoreObj { count: res_count as isize, wait_queue: VecDeque::new() }
    }

    /// The instances free now: the count when positive, else none.
    pub fn available(&self) -> (n: usize)
        ensures
            n == if self.count > 0 { self.count as int } else { 0 },
    {
        if self.count > 0 {
            self.count as usize
        } else {
            0
        }
    }
}

impl CondvarObj {
    pub fn new() -> (c: Self)
        ensures
            c.deep_view() == Seq::<usize>::empty(),
    {
        CondvarObj { wait_queue: VecDeque::new() }
    }
}

impl ProcessSync {
    /// A process with no threads and no synchronisation objects.
    pub fn new() -> (s: Self)
        ensures
            s@.mutexes == Seq::<Option<MutexModel>>::empty(),
            s@.semaphores == Seq::<Option<SemaphoreModel>>::empty(),
            s@.condvars == Seq::<Option<Seq<usize>>>::empty(),
            s@.tasks == Seq::<Option<ThreadModel>>::empty(),
            !s@.detection,
            s@.ready == Seq::<usize>::empty(),
            s@.timers == Seq::<TimerEntry>::empty(),
            sync_wf(s@),
    {
        let s = ProcessSync {
            mutex_list: Vec::new(),
            semaphore_list: Vec::new(),
            condvar_list: Vec::new(),
            tasks: Vec::new(),
            deadlock_detection_enabled: false,
            ready: Vec::new(),
            timers: Vec::new(),
        };
        assert(s@.mutexes =~= Seq::<Option<MutexModel>>::empty());
        assert(s@.semaphores =~= Seq::<Option<SemaphoreModel>>::empty());
        assert(s@.condvars =~= Seq::<Option<Seq<usize>>>::empty());
        assert(s@.tasks =~= Seq::<Option<ThreadModel>>::empty());
        s
    }

    /// Adds a thread that holds nothing and returns its id.
    pub fn add_thread(&mut self) -> (tid: usize)
        requires
            sync_wf(old(self)@),
            old(self)@.tasks.len() < isize::MAX,
        ensures
            tid == old(self)@.tasks.len(),
            final(self)@ == (SyncModel {
                tasks: old(self)@.tasks.push(
                    Some(ThreadModel { held_mutexes: Seq::empty(), held_semaphores: Seq::empty() }),
                ),
                ..old(self)@
            }),
            sync_wf(final(self)@),
    {
        let tid = self.tasks.len();
        self.tasks.push(Some(ThreadRes { held_mutexes: Vec::new(), held_semaphores: Vec::new() }));
        proof {
            let th = ThreadModel { held_mutexes: Seq::empty(), held_semaphores: Seq::empty() };
            assert(self.tasks[tid as int].deep_view() == Some(th)) by {
                assert(self.tasks[tid as int]->Some_0.held_mutexes@ =~= Seq::<usize>::empty());
                assert(self.tasks[tid as int]->Some_0.held_semaphores@ =~= Seq::<usize>::empty());
            }
            assert(self@.tasks =~= old(self)@.tasks.push(Some(th)));
            let s0 = old(self)@;
            let s2 = self@;
            assert forall|u: int| #[trigger] valid_thread(s2, u) implies thread_wf(s2, thread_of(s2, u)) by {
                if u < s0.tasks.len() {
                    assert(valid_thread(s0, u));
                }
            }
            assert forall|i: int, k: int|
                valid_mutex(s2, i) && 0 <= k < mutex_of(s2, i).waiters.len() implies valid_thread(
                s2,
                #[trigger] mutex_of(s2, i).waiters[k].0 as int,
            ) by {
                assert(valid_mutex(s0, i));
                assert(valid_thread(s0, mutex_of(s0, i).waiters[k].0 as int));
            }
            assert forall|i: int, k: int|
                valid_semaphore(s2, i) && 0 <= k < semaphore_of(s2, i).waiters.len() implies valid_thread(
                s2,
                #[trigger] semaphore_of(s2, i).waiters[k] as int,
            ) by {
                assert(valid_semaphore(s0, i));
                assert(valid_thread(s0, semaphore_of(s0, i).waiters[k] as int));
            }
            assert forall|i: int, k: int|
                valid_condvar(s2, i) && 0 <= k < condvar_of(s2, i).len() implies valid_thread(
                s2,
                #[trigger] condvar_of(s2, i)[k] as int,
            ) by {
                assert(valid_condvar(s0, i));
                assert(valid_thread(s0, condvar_of(s0, i)[k] as int));
            }
        }
        tid
    }

    fn take_thread(&mut self, t: usize) -> (th: ThreadRes)
        requires
            valid_thread(old(self)@, t as int),
        ensures
            th.deep_view() == thread_of(old(self)@, t as int),
            final(self).tasks@ == old(self).tasks@.update(t as int, None),
            final(self).mutex_list == old(self).mutex_list,
            final(self).semaphore_list == old(self).semaphore_list,
            final(self).condvar_list == old(self).condvar_list,
            final(self).deadlock_detection_enabled == old(self).deadlock_detection_enabled,
            final(self).ready == old(self).ready,
            final(self).timers == old(self).timers,
    {
        let slot = self.tasks[t].take();
        match slot {
            Some(th) => th,
            None => {
                proof {
                    assert(false);
                }
                ThreadRes { held_mutexes: Vec::new(), held_semaphores: Vec::new() }
            },
        }
    }

    fn put_thread(&mut self, t: usize, th: ThreadRes)
        requires
            t < old(self).tasks@.len(),
        ensures
            final(self)@ == set_thread(old(self)@, t as int, th.deep_view()),
    {
        self.tasks.set(t, Some(th));
        proof {
            assert(self@.tasks =~= old(self)@.tasks.update(t as int, Some(th.deep_view())));
        }
    }

    fn record_mutex_exec(&mut self, t: usize, id: usize)
        requires
            valid_thread(old(self)@, t as int),
        ensures
            final(self)@ == record_mutex(old(self)@, t as int, id),
    {
        let ghost s0 = self@;
        let mut th = self.take_thread(t);
        held_insert_exec(&mut th.held_mutexes, id);
        self.put_thread(t, th);
        proof {
            assert(self@.tasks =~= record_mutex(s0, t as int, id).tasks);
            assert(self@.mutexes =~= s0.mutexes);
            assert(self@.semaphores =~= s0.semaphores);
            assert(self@.condvars =~= s0.condvars);
        }
    }

    fn forget_mutex_exec(&mut self, t: usize, id: usize)
        requires
            valid_thread(old(self)@, t as int),
        ensures
            final(self)@ == forget_mutex(old(self)@, t as int, id),
    {
        let ghost s0 = self@;
        let mut th = self.take_thread(t);
        th.held_mutexes = held_remove_exec(&th.held_mutexes, id);
        self.put_thread(t, th);
        proof {
            assert(self@.tasks =~= forget_mutex(s0, t as int, id).tasks);
            assert(self@.mutexes =~= s0.mutexes);
            assert(self@.semaphores =~= s0.semaphores);
            assert(self@.condvars =~= s0.condvars);
        }
    }

    fn record_semaphore_exec(&mut self, t: usize, id: usize)
        requires
            valid_thread(old(self)@, t as int),
        ensures
            final(self)@ == record_semaphore(old(self)@, t as int, id),
    {
        let ghost s0 = self@;
        let mut th = self.take_thread(t);
        held_insert_exec(&mut th.held_semaphores, id);
        self.put_thread(t, th);
        proof {
            assert(self@.tasks =~= record_semaphore(s0, t as int, id).tasks);
            assert(self@.mutexes =~= s0.mutexes);
            assert(self@.semaphores =~= s0.semaphores);
            assert(self@.condvars =~= s0.condvars);
        }
    }

    fn forget_semaphore_exec(&mut self, t: usize, id: usize)
        requires
            valid_thread(old(self)@, t as int),
        ensures
            final(self)@ == forget_semaphore(old(self)@, t as int, id),
    {
        let ghost s0 = self@;
        let mut th = self.take_thread(t);
        th.held_semaphores = held_remove_exec(&th.held_semaphores, id);
        self.put_thread(t, th);
        proof {
            assert(self@.tasks =~= forget_semaphore(s0, t as int, id).tasks);
            assert(self@.mutexes =~= s0.mutexes);
            assert(self@.semaphores =~= s0.semaphores);
            assert(self@.condvars =~= s0.condvars);
        }
    }
}


impl ProcessSync {
    fn take_mutex(&mut self, id: usize) -> (m: MutexObj)
        requires
            valid_mutex(old(self)@, id as int),
        ensures
            m.deep_view() == mutex_of(old(self)@, id as int),
            final(self).mutex_list@ == old(self).mutex_list@.update(id as int, None),
            final(self)@ == (SyncModel { mutexes: old(self)@.mutexes.update(id as int, None), ..old(self)@ }),
            final(self).tasks == old(self).tasks,
            final(self).semaphore_list == old(self).semaphore_list,
            final(self).condvar_list == old(self).condvar_list,
            final(self).deadlock_detection_enabled == old(self).deadlock_detection_enabled,
            final(self).ready == old(self).ready,
            final(self).timers == old(self).timers,
    {
        let slot = self.mutex_list[id].take();
        proof {
            assert(self@.mutexes =~= old(self)@.mutexes.update(id as int, None));
        }
        match slot {
            Some(m) => m,
            None => {
                proof {
                    assert(false);
                }
                MutexObj::new(false)
            },
        }
    }

    fn put_mutex(&mut self, id: usize, m: MutexObj, Ghost(s0): Ghost<SyncModel>)
        requires
            id < s0.mutexes.len(),
            old(self)@ == (SyncModel { mutexes: s0.mutexes.update(id as int, None), ..s0 }),
        ensures
            final(self)@ == set_mutex(s0, id as int, m.deep_view()),
    {
        assert(old(self)@.mutexes.len() == self.mutex_list@.len());
        self.mutex_list.set(id, Some(m));
        proof {
            assert forall|i: int| 0 <= i < s0.mutexes.len() && i != id implies #[trigger] self@.mutexes[i] == s0.mutexes[i] by {
                assert(self@.mutexes[i] == old(self)@.mutexes[i]);
            }
            assert(self@.mutexes =~= s0.mutexes.update(id as int, Some(m.deep_view())));
        }
    }

    fn take_semaphore(&mut self, id: usize) -> (m: SemaphoreObj)
        requires
            valid_semaphore(old(self)@, id as int),
        ensures
            m.deep_view() == semaphore_of(old(self)@, id as int),
            final(self).semaphore_list@ == old(self).semaphore_list@.update(id as int, None),
            final(self)@ == (SyncModel { semaphores: old(self)@.semaphores.update(id as int, None), ..old(self)@ }),
            final(self).tasks == old(self).tasks,
            final(self).mutex_list == old(self).mutex_list,
            final(self).condvar_list == old(self).condvar_list,
            final(self).deadlock_detection_enabled == old(self).deadlock_detection_enabled,
            final(self).ready == old(self).ready,
            final(self).timers == old(self).timers,
    {
        let slot = self.semaphore_list[id].take();
        proof {
            assert(self@.semaphores =~= old(self)@.semaphores.update(id as int, None));
        }
        match slot {
            Some(m) => m,
            None => {
                proof {
                    assert(false);
                }
                SemaphoreObj::new(0)
            },
        }
    }

    fn put_semaphore(&mut self, id: usize, m: SemaphoreObj, Ghost(s0): Ghost<SyncModel>)
        requires
            id < s0.semaphores.len(),
            old(self)@ == (SyncModel { semaphores: s0.semaphores.update(id as int, None), ..s0 }),
        ensures
            final(self)@ == set_semaphore(s0, id as int, m.deep_view()),
    {
        assert(old(self)@.semaphores.len() == self.semaphore_list@.len());
        self.semaphore_list.set(id, Some(m));
        proof {
            assert forall|i: int| 0 <= i < s0.semaphores.len() && i != id implies #[trigger] self@.semaphores[i] == s0.semaphores[i] by {
                assert(self@.semaphores[i] == old(self)@.semaphores[i]);
            }
            assert(self@.semaphores =~= s0.semaphores.update(id as int, Some(m.deep_view())));
        }
    }

    fn take_condvar(&mut self, id: usize) -> (c: CondvarObj)
        requires
            valid_condvar(old(self)@, id as int),
        ensures
            c.deep_view() == condvar_of(old(self)@, id as int),
            final(self).condvar_list@ == old(self).condvar_list@.update(id as int, None),
            final(self)@ == (SyncModel { condvars: old(self)@.condvars.update(id as int, None), ..old(self)@ }),
            final(self).tasks == old(self).tasks,
            final(self).mutex_list == old(self).mutex_list,
            final(self).semaphore_list == old(self).semaphore_list,
            final(self).deadlock_detection_enabled == old(self).deadlock_detection_enabled,
            final(self).ready == old(self).ready,
            final(self).timers == old(self).timers,
    {
        let slot = self.condvar_list[id].take();
        proof {
            assert(self@.condvars =~= old(self)@.condvars.update(id as int, None));
        }
        match slot {
            Some(c) => c,
            None => {
                proof {
                    assert(false);
                }
                CondvarObj::new()
            },
        }
    }

    fn put_condvar(&mut self, id: usize, c: CondvarObj, Ghost(s0): Ghost<SyncModel>)
        requires
            id < s0.condvars.len(),
            old(self)@ == (SyncModel { condvars: s0.condvars.update(id as int, None), ..s0 }),
        ensures
            final(self)@ == set_condvar(s0, id as int, c.deep_view()),
    {
        assert(old(self)@.condvars.len() == self.condvar_list@.len());
        self.condvar_list.set(id, Some(c));
        proof {
            assert forall|i: int| 0 <= i < s0.condvars.len() && i != id implies #[trigger] self@.condvars[i] == s0.condvars[i] by {
                assert(self@.condvars[i] == old(self)@.condvars[i]);
            }
            assert(self@.condvars =~= s0.condvars.update(id as int, Some(c.deep_view())));
        }
    }

    fn wake_exec(&mut self, t: usize)
        ensures
            final(self)@ == wake(old(self)@, t),
    {
        self.ready.push(t);
    }

    /// Thread `t` tries to take mutex `id` (see [`lock_step`]).
    fn lock_exec(&mut self, t: usize, id: usize, record: bool) -> (step: Step)
        requires
            sync_wf(old(self)@),
            valid_thread(old(self)@, t as int),
            valid_mutex(old(self)@, id as int),
        ensures
            (final(self)@, step) == lock_step(old(self)@, t, id, record),
            sync_wf(final(self)@),
    {
        proof {
            law_lock_keeps_wf(self@, t, id, record);
        }
        let ghost s0 = self@;
        let mut m = self.take_mutex(id);
        if !m.locked {
            m.locked = true;
            self.put_mutex(id, m, Ghost(s0));
            if record {
                self.record_mutex_exec(t, id);
            }
            Step::Return(0)
        } else if m.blocking {
            m.wait_queue.push_back((t, record));
            self.put_mutex(id, m, Ghost(s0));
            Step::Block
        } else {
            self.put_mutex(id, m, Ghost(s0));
            proof {
                assert(self@.mutexes =~= s0.mutexes);
                assert(self@ == s0);
            }
            Step::Yield
        }
    }

    /// Releases mutex `id` (see [`unlock_step`]).
    fn unlock_exec(&mut self, id: usize)
        requires
            sync_wf(old(self)@),
            valid_mutex(old(self)@, id as int),
        ensures
            final(self)@ == unlock_step(old(self)@, id),
            sync_wf(final(self)@),
    {
        proof {
            law_unlock_keeps_wf(self@, id);
        }
        let ghost s0 = self@;
        let mut m = self.take_mutex(id);
        if m.blocking {
            let w = m.wait_queue.pop_front();
            match w {
                Some((wt, rec)) => {
                    self.put_mutex(id, m, Ghost(s0));
                    self.wake_exec(wt);
                    if rec {
                        proof {
                            assert(mutex_of(s0, id as int).waiters[0] == (wt, rec));
                            assert(valid_thread(s0, wt as int));
                        }
                        self.record_mutex_exec(wt, id);
                    }
                },
                None => {
                    m.locked = false;
                    self.put_mutex(id, m, Ghost(s0));
                },
            }
        } else {
            m.locked = false;
            self.put_mutex(id, m, Ghost(s0));
        }
    }

    /// `up` on semaphore `id` (see [`up_step`]).
    fn up_exec(&mut self, id: usize)
        requires
            sync_wf(old(self)@),
            valid_semaphore(old(self)@, id as int),
            semaphore_of(old(self)@, id as int).count < isize::MAX,
        ensures
            final(self)@ == up_step(old(self)@, id),
            sync_wf(final(self)@),
    {
        proof {
            law_up_keeps_wf(self@, id);
        }
        let ghost s0 = self@;
        let mut m = self.take_semaphore(id);
        m.count = m.count + 1;
        if m.count <= 0 {
            let w = m.wait_queue.pop_front();
            match w {
                Some(wt) => {
                    self.put_semaphore(id, m, Ghost(s0));
                    self.wake_exec(wt);
                    proof {
                        assert(semaphore_of(s0, id as int).waiters[0] == wt);
                        assert(valid_thread(s0, wt as int));
                    }
                    self.record_semaphore_exec(wt, id);
                },
                None => {
                    self.put_semaphore(id, m, Ghost(s0));
                },
            }
        } else {
            self.put_semaphore(id, m, Ghost(s0));
        }
    }

    /// `down` on semaphore `id` by thread `t` (see [`down_step`]).
    fn down_exec(&mut self, t: usize, id: usize) -> (step: Step)
        requires
            sync_wf(old(self)@),
            valid_thread(old(self)@, t as int),
            valid_semaphore(old(self)@, id as int),
            semaphore_of(old(self)@, id as int).count > isize::MIN,
        ensures
            (final(self)@, step) == down_step(old(self)@, t, id),
            sync_wf(final(self)@),
    {
        proof {
            law_down_keeps_wf(self@, t, id);
        }
        let ghost s0 = self@;
        let mut m = self.take_semaphore(id);
        m.count = m.count - 1;
        if m.count < 0 {
            m.wait_queue.push_back(t);
            self.put_semaphore(id, m, Ghost(s0));
            Step::Block
        } else {
            self.put_semaphore(id, m, Ghost(s0));
            self.record_semaphore_exec(t, id);
            Step::Return(0)
        }
    }
}


// ----- deadlock detection -----

/// Thread `t` records mutex `j` as held.
pub open spec fn holds_mutex(s: SyncModel, t: int, j: int) -> bool {
    valid_thread(s, t) && thread_of(s, t).held_mutexes.contains(j as usize)
}

/// Thread `t` records semaphore `j` as held.
pub open spec fn holds_semaphore(s: SyncModel, t: int, j: int) -> bool {
    valid_thread(s, t) && thread_of(s, t).held_semaphores.contains(j as usize)
}

pub open spec fn indicator(b: bool) -> usize {
    if b {
        1
    } else {
        0
    }
}

/// Free mutexes: one instance of each that no thread holds.
pub open spec fn mutex_available(s: SyncModel) -> Seq<usize> {
    Seq::new(
        s.mutexes.len(),
        |j: int| indicator(!exists|t: int| 0 <= t < s.tasks.len() && #[trigger] holds_mutex(s, t, j)),
    )
}

/// Mutexes held by each thread.
pub open spec fn mutex_allocation(s: SyncModel) -> Seq<Seq<usize>> {
    Seq::new(
        s.tasks.len(),
        |t: int| Seq::new(s.mutexes.len(), |j: int| indicator(holds_mutex(s, t, j))),
    )
}

/// What each thread may still ask for: every existing mutex it does not
/// hold, and the requesting thread `tid` asks for mutex `req` in any case.
pub open spec fn mutex_need(s: SyncModel, tid: usize, req: usize) -> Seq<Seq<usize>> {
    Seq::new(
        s.tasks.len(),
        |t: int|
            Seq::new(
                s.mutexes.len(),
                |j: int|
                    if t == tid && j == req && s.mutexes[req as int] is Some {
                        1usize
                    } else {
                        (indicator(s.mutexes[j] is Some) - indicator(holds_mutex(s, t, j))) as usize
                    },
            ),
    )
}

/// The banker's verdict on the mutexes of `s` when thread `tid` asks for `req`.
pub open spec fn mutex_state_safe(s: SyncModel, tid: usize, req: usize) -> bool {
    is_safe(
        s.tasks.len() as int,
        s.mutexes.len() as int,
        mutex_available(s),
        mutex_allocation(s),
        mutex_need(s, tid, req),
    )
}

/// Free instances of each semaphore.
pub open spec fn semaphore_available(s: SyncModel) -> Seq<usize> {
    Seq::new(
        s.semaphores.len(),
        |j: int|
            if s.semaphores[j] is Some && semaphore_of(s, j).count > 0 {
                semaphore_of(s, j).count as usize
            } else {
                0usize
            },
    )
}

/// Semaphores held by each thread.
pub open spec fn semaphore_allocation(s: SyncModel) -> Seq<Seq<usize>> {
    Seq::new(
        s.tasks.len(),
        |t: int| Seq::new(s.semaphores.len(), |j: int| indicator(holds_semaphore(s, t, j))),
    )
}

/// What each thread may still ask for: one of every existing semaphore it
/// does not hold, and the requesting thread `tid` asks for `req` in any case.
pub open spec fn semaphore_need(s: SyncModel, tid: usize, req: usize) -> Seq<Seq<usize>> {
    Seq::new(
        s.tasks.len(),
        |t: int|
            Seq::new(
                s.semaphores.len(),
                |j: int|
                    if t == tid && j == req && s.semaphores[req as int] is Some {
                        1usize
                    } else {
                        (indicator(s.semaphores[j] is Some) - indicator(holds_semaphore(s, t, j))) as usize
                    },
            ),
    )
}

/// The banker's verdict on the semaphores of `s` when thread `tid` asks for `req`.
pub open spec fn semaphore_state_safe(s: SyncModel, tid: usize, req: usize) -> bool {
    is_safe(
        s.tasks.len() as int,
        s.semaphores.len() as int,
        semaphore_available(s),
        semaphore_allocation(s),
        semaphore_need(s, tid, req),
    )
}

/// The banker's other inputs for the mutexes: a thread's allocation of a
/// mutex is 1 exactly when it holds it, and a mutex is available (one
/// instance) exactly when no thread holds it.
pub proof fn law_mutex_matrices(s: SyncModel, t: int, j: int)
    requires
        0 <= t < s.tasks.len(),
        0 <= j < s.mutexes.len(),
    ensures
        mutex_allocation(s)[t][j] == indicator(holds_mutex(s, t, j)),
        mutex_available(s)[j] == indicator(!exists|u: int| #[trigger] holds_mutex(s, u, j)),
{
    if exists|u: int| #[trigger] holds_mutex(s, u, j) {
        let u = choose|u: int| #[trigger] holds_mutex(s, u, j);
        assert(0 <= u < s.tasks.len() && holds_mutex(s, u, j));
    }
}

/// The banker's other inputs for the semaphores: a thread's allocation of
/// a semaphore is 1 exactly when it holds it, and the free instances of an
/// existing semaphore are its count when positive, none otherwise.
pub proof fn law_semaphore_matrices(s: SyncModel, t: int, j: int)
    requires
        0 <= t < s.tasks.len(),
        0 <= j < s.semaphores.len(),
    ensures
        semaphore_allocation(s)[t][j] == indicator(holds_semaphore(s, t, j)),
        valid_semaphore(s, j) ==> semaphore_available(s)[j] as int == if semaphore_of(s, j).count > 0 {
            semaphore_of(s, j).count as int
        } else {
            0
        },
        !valid_semaphore(s, j) ==> semaphore_available(s)[j] == 0,
{
}

/// The banker's need matrix of the mutex check: a thread other than the
/// requester needs no mutex it already holds and every existing mutex it
/// does not; the requester needs the mutex it asks for.
pub proof fn law_mutex_need(s: SyncModel, tid: usize, req: usize, t: int, j: int)
    requires
        sync_wf(s),
        0 <= t < s.tasks.len(),
        0 <= j < s.mutexes.len(),
        j <= usize::MAX,
    ensures
        t != tid && holds_mutex(s, t, j) ==> mutex_need(s, tid, req)[t][j] == 0,
        t != tid && valid_mutex(s, j) && !holds_mutex(s, t, j) ==> mutex_need(s, tid, req)[t][j] == 1,
        !valid_mutex(s, j) ==> !holds_mutex(s, t, j) && (t != tid || j != req ==> mutex_need(s, tid, req)[t][j] == 0),
        t == tid && j == req ==> mutex_need(s, tid, req)[t][j] == indicator(valid_mutex(s, j)),
{
    if holds_mutex(s, t, j) {
        assert(valid_thread(s, t));
        assert(thread_wf(s, thread_of(s, t)));
        let h = thread_of(s, t).held_mutexes;
        let k = choose|k: int| 0 <= k < h.len() && h[k] == j as usize;
        assert(valid_mutex(s, h[k] as int));
    }
}

/// The banker's need matrix of the semaphore check: a thread other than
/// the requester needs no semaphore it already holds and one of every
/// existing semaphore it does not; the requester needs the one it asks for.
pub proof fn law_semaphore_need(s: SyncModel, tid: usize, req: usize, t: int, j: int)
    requires
        sync_wf(s),
        0 <= t < s.tasks.len(),
        0 <= j < s.semaphores.len(),
        j <= usize::MAX,
    ensures
        t != tid && holds_semaphore(s, t, j) ==> semaphore_need(s, tid, req)[t][j] == 0,
        t != tid && valid_semaphore(s, j) && !holds_semaphore(s, t, j) ==> semaphore_need(s, tid, req)[t][j] == 1,
        !valid_semaphore(s, j) ==> !holds_semaphore(s, t, j) && (t != tid || j != req ==> semaphore_need(
            s,
            tid,
            req,
        )[t][j] == 0),
        t == tid && j == req ==> semaphore_need(s, tid, req)[t][j] == indicator(valid_semaphore(s, j)),
{
    if holds_semaphore(s, t, j) {
        assert(valid_thread(s, t));
        assert(thread_wf(s, thread_of(s, t)));
        let h = thread_of(s, t).held_semaphores;
        let k = choose|k: int| 0 <= k < h.len() && h[k] == j as usize;
        assert(valid_semaphore(s, h[k] as int));
    }
}

/// Contention alone is no deadlock: when every held mutex is held by one
/// thread `h` other than the requester, the mutex check finds the state
/// safe (`h` can finish, give its mutexes back, and then anyone can go on),
/// so the request is not refused.
pub proof fn law_single_holder_mutex_safe(s: SyncModel, tid: usize, req: usize, h: int)
    requires
        sync_wf(s),
        s.mutexes.len() <= usize::MAX,
        0 <= h < s.tasks.len(),
        h != tid,
        forall|u: int, j: int| #[trigger] holds_mutex(s, u, j) ==> u == h,
    ensures
        mutex_state_safe(s, tid, req),
{
    let n = s.tasks.len() as int;
    let m = s.mutexes.len() as int;
    let avail = mutex_available(s);
    let alloc = mutex_allocation(s);
    let need = mutex_need(s, tid, req);
    assert forall|i: int, j: int| 0 <= i < n && 0 <= j < m implies #[trigger] need[i][j] <= avail[j] + alloc[h][j]
        && (i == h ==> need[i][j] <= avail[j]) by {
        law_mutex_need(s, tid, req, i, j);
        law_mutex_need(s, tid, req, h, j);
        law_mutex_matrices(s, h, j);
        if !holds_mutex(s, h, j) {
            assert(!exists|u: int| #[trigger] holds_mutex(s, u, j));
        }
    }
    assert forall|j: int| 0 <= j < m implies #[trigger] need[h][j] <= avail[j] by {
        assert(need[h][j] <= avail[j] + alloc[h][j] && (h == h ==> need[h][j] <= avail[j]));
    }
    law_safe_when_one_finishes_first(n, m, avail, alloc, need, h);
}

/// Contention alone is no deadlock: when every held semaphore is held by
/// one thread `h` other than the requester, and every other semaphore has
/// a free unit, the semaphore check finds the state safe, so the request
/// is not refused.
pub proof fn law_single_holder_semaphore_safe(s: SyncModel, tid: usize, req: usize, h: int)
    requires
        sync_wf(s),
        s.semaphores.len() <= usize::MAX,
        0 <= h < s.tasks.len(),
        h != tid,
        forall|u: int, j: int| #[trigger] holds_semaphore(s, u, j) ==> u == h,
        forall|j: int|
            #[trigger] valid_semaphore(s, j) && !holds_semaphore(s, h, j) ==> semaphore_of(s, j).count > 0,
    ensures
        semaphore_state_safe(s, tid, req),
{
    let n = s.tasks.len() as int;
    let m = s.semaphores.len() as int;
    let avail = semaphore_available(s);
    let alloc = semaphore_allocation(s);
    let need = semaphore_need(s, tid, req);
    assert forall|i: int, j: int| 0 <= i < n && 0 <= j < m implies #[trigger] need[i][j] <= avail[j] + alloc[h][j]
        && (i == h ==> need[i][j] <= avail[j]) by {
        law_semaphore_need(s, tid, req, i, j);
        law_semaphore_need(s, tid, req, h, j);
        law_semaphore_matrices(s, h, j);
        if valid_semaphore(s, j) && !holds_semaphore(s, h, j) {
            assert(semaphore_of(s, j).count > 0);
        }
    }
    assert forall|j: int| 0 <= j < m implies #[trigger] need[h][j] <= avail[j] by {
        assert(need[h][j] <= avail[j] + alloc[h][j] && (h == h ==> need[h][j] <= avail[j]));
    }
    law_safe_when_one_finishes_first(n, m, avail, alloc, need, h);
}

proof fn lemma_column_total_bounded(a: Seq<Seq<usize>>, j: int, n: int)
    requires
        forall|i: int| 0 <= i < n ==> #[trigger] a[i][j] <= 1,
    ensures
        column_total(a, j, n) <= if n > 0 { n } else { 0 },
    decreases n,
{
    if n > 0 {
        lemma_column_total_bounded(a, j, n - 1);
    }
}

/// A row of `m` entries: 1 at each index listed in `held`, 0 elsewhere.
fn indicator_row(held: &Vec<usize>, m: usize) -> (row: Vec<usize>)
    ensures
        row@.len() == m,
        forall|j: int| 0 <= j < m ==> #[trigger] row@[j] == indicator(held@.contains(j as usize)),
{
    let mut row: Vec<usize> = Vec::new();
    let mut j: usize = 0;
    while j < m
        invariant
            j <= m,
            row@.len() == j,
            forall|q: int| 0 <= q < j ==> #[trigger] row@[q] == 0,
        decreases m - j,
    {
        row.push(0);
        j = j + 1;
    }
    let mut k: usize = 0;
    while k < held.len()
        invariant
            k <= held@.len(),
            row@.len() == m,
            forall|q: int| 0 <= q < m ==> #[trigger] row@[q] == indicator(held@.take(k as int).contains(q as usize)),
        decreases held@.len() - k,
    {
        let id = held[k];
        proof {
            assert forall|y: usize| held@.take(k as int + 1).contains(y) <==> (held@.take(k as int).contains(y) || y == id) by {
                let t1 = held@.take(k as int + 1);
                let t0 = held@.take(k as int);
                if t1.contains(y) {
                    let a = choose|a: int| 0 <= a < t1.len() && t1[a] == y;
                    if a < k {
                        assert(t0[a] == y);
                    }
                }
                if t0.contains(y) {
                    let a = choose|a: int| 0 <= a < t0.len() && t0[a] == y;
                    assert(t1[a] == y);
                }
                if y == id {
                    assert(t1[k as int] == y);
                }
            }
        }
        if id < m {
            row.set(id, 1);
        }
        assert forall|q: int| 0 <= q < m implies #[trigger] row@[q] == indicator(
            held@.take(k as int + 1).contains(q as usize),
        ) by {
            assert(held@.take(k as int + 1).contains(q as usize) <==> (held@.take(k as int).contains(
                q as usize,
            ) || q as usize == id));
        }
        k = k + 1;
    }
    assert(held@.take(held@.len() as int) =~= held@);
    row
}

/// A row of `m` counters: each index listed in `held` counted once per
/// occurrence; `held` lists no index twice.
fn count_row(held: &Vec<usize>, m: usize) -> (row: Vec<usize>)
    requires
        held@.no_duplicates(),
    ensures
        row@.len() == m,
        forall|j: int| 0 <= j < m ==> #[trigger] row@[j] == indicator(held@.contains(j as usize)),
{
    let mut row: Vec<usize> = Vec::new();
    let mut j: usize = 0;
    while j < m
        invariant
            j <= m,
            row@.len() == j,
            forall|q: int| 0 <= q < j ==> #[trigger] row@[q] == 0,
        decreases m - j,
    {
        row.push(0);
        j = j + 1;
    }
    let mut k: usize = 0;
    while k < held.len()
        invariant
            held@.no_duplicates(),
            k <= held@.len(),
            row@.len() == m,
            forall|q: int| 0 <= q < m ==> #[trigger] row@[q] == indicator(held@.take(k as int).contains(q as usize)),
        decreases held@.len() - k,
    {
        let id = held[k];
        proof {
            assert forall|y: usize| held@.take(k as int + 1).contains(y) <==> (held@.take(k as int).contains(y) || y == id) by {
                let t1 = held@.take(k as int + 1);
                let t0 = held@.take(k as int);
                if t1.contains(y) {
                    let a = choose|a: int| 0 <= a < t1.len() && t1[a] == y;
                    if a < k {
                        assert(t0[a] == y);
                    }
                }
                if t0.contains(y) {
                    let a = choose|a: int| 0 <= a < t0.len() && t0[a] == y;
                    assert(t1[a] == y);
                }
                if y == id {
                    assert(t1[k as int] == y);
                }
            }
            assert(!held@.take(k as int).contains(id)) by {
                if held@.take(k as int).contains(id) {
                    let a = choose|a: int| 0 <= a < k && held@.take(k as int)[a] == id;
                    assert(held@[a] == held@[k as int]);
                }
            }
        }
        if id < m {
            let c = row[id];
            assert(c == indicator(held@.take(k as int).contains(id)));
            assert(c == 0);
            row.set(id, c + 1);
        }
        k = k + 1;
    }
    assert(held@.take(held@.len() as int) =~= held@);
    row
}





/// A new object in the first free slot, or at the end, leaves every existing
/// object as it was.
proof fn lemma_wf_new_mutex(s: SyncModel, id: int, x: MutexModel)
    requires
        sync_wf(s),
        slot_for(s.mutexes, id),
        x.waiters.len() == 0,
    ensures
        sync_wf(
            SyncModel {
                mutexes: if id < s.mutexes.len() {
                    s.mutexes.update(id, Some(x))
                } else {
                    s.mutexes.push(Some(x))
                },
                ..s
            },
        ),
{
    let s2 = SyncModel {
        mutexes: if id < s.mutexes.len() {
            s.mutexes.update(id, Some(x))
        } else {
            s.mutexes.push(Some(x))
        },
        ..s
    };
    assert forall|i: int| valid_mutex(s, i) implies valid_mutex(s2, i) && mutex_of(s2, i) == mutex_of(s, i) by {
        if id < s.mutexes.len() {
            assert(i != id);
        }
    }
    assert forall|t: int| #[trigger] valid_thread(s2, t) implies thread_wf(s2, thread_of(s2, t)) by {
        assert(valid_thread(s, t));
        let th = thread_of(s, t);
        assert forall|k: int| 0 <= k < th.held_mutexes.len() implies valid_mutex(
            s2,
            #[trigger] th.held_mutexes[k] as int,
        ) by {
            assert(valid_mutex(s, th.held_mutexes[k] as int));
        }
    }
    assert forall|i: int, k: int|
        valid_mutex(s2, i) && 0 <= k < mutex_of(s2, i).waiters.len() implies valid_thread(
        s2,
        #[trigger] mutex_of(s2, i).waiters[k].0 as int,
    ) by {
        if i != id {
            assert(valid_mutex(s, i));
            assert(valid_thread(s, mutex_of(s, i).waiters[k].0 as int));
        }
    }
    assert forall|i: int, k: int|
        valid_semaphore(s2, i) && 0 <= k < semaphore_of(s2, i).waiters.len() implies valid_thread(
        s2,
        #[trigger] semaphore_of(s2, i).waiters[k] as int,
    ) by {
        assert(valid_semaphore(s, i));
        assert(valid_thread(s, semaphore_of(s, i).waiters[k] as int));
    }
    assert forall|i: int, k: int|
        valid_condvar(s2, i) && 0 <= k < condvar_of(s2, i).len() implies valid_thread(
        s2,
        #[trigger] condvar_of(s2, i)[k] as int,
    ) by {
        assert(valid_condvar(s, i));
        assert(valid_thread(s, condvar_of(s, i)[k] as int));
    }
}

proof fn lemma_wf_new_semaphore(s: SyncModel, id: int, x: SemaphoreModel)
    requires
        sync_wf(s),
        slot_for(s.semaphores, id),
        x.waiters.len() == 0,
    ensures
        sync_wf(
            SyncModel {
                semaphores: if id < s.semaphores.len() {
                    s.semaphores.update(id, Some(x))
                } else {
                    s.semaphores.push(Some(x))
                },
                ..s
            },
        ),
{
    let s2 = SyncModel {
        semaphores: if id < s.semaphores.len() {
            s.semaphores.update(id, Some(x))
        } else {
            s.semaphores.push(Some(x))
        },
        ..s
    };
    assert forall|i: int| valid_semaphore(s, i) implies valid_semaphore(s2, i) && semaphore_of(s2, i) == semaphore_of(s, i) by {
        if id < s.semaphores.len() {
            assert(i != id);
        }
    }
    assert forall|t: int| #[trigger] valid_thread(s2, t) implies thread_wf(s2, thread_of(s2, t)) by {
        assert(valid_thread(s, t));
        let th = thread_of(s, t);
        assert forall|k: int| 0 <= k < th.held_semaphores.len() implies valid_semaphore(
            s2,
            #[trigger] th.held_semaphores[k] as int,
        ) by {
            assert(valid_semaphore(s, th.held_semaphores[k] as int));
        }
    }
    assert forall|i: int, k: int|
        valid_mutex(s2, i) && 0 <= k < mutex_of(s2, i).waiters.len() implies valid_thread(
        s2,
        #[trigger] mutex_of(s2, i).waiters[k].0 as int,
    ) by {
        assert(valid_mutex(s, i));
        assert(valid_thread(s, mutex_of(s, i).waiters[k].0 as int));
    }
    assert forall|i: int, k: int|
        valid_semaphore(s2, i) && 0 <= k < semaphore_of(s2, i).waiters.len() implies valid_thread(
        s2,
        #[trigger] semaphore_of(s2, i).waiters[k] as int,
    ) by {
        if i != id {
            assert(valid_semaphore(s, i));
            assert(valid_thread(s, semaphore_of(s, i).waiters[k] as int));
        }
    }
    assert forall|i: int, k: int|
        valid_condvar(s2, i) && 0 <= k < condvar_of(s2, i).len() implies valid_thread(
        s2,
        #[trigger] condvar_of(s2, i)[k] as int,
    ) by {
        assert(valid_condvar(s, i));
        assert(valid_thread(s, condvar_of(s, i)[k] as int));
    }
}

proof fn lemma_wf_new_condvar(s: SyncModel, id: int)
    requires
        sync_wf(s),
        slot_for(s.condvars, id),
    ensures
        sync_wf(
            SyncModel {
                condvars: if id < s.condvars.len() {
                    s.condvars.update(id, Some(Seq::<usize>::empty()))
                } else {
                    s.condvars.push(Some(Seq::<usize>::empty()))
                },
                ..s
            },
        ),
{
    let s2 = SyncModel {
        condvars: if id < s.condvars.len() {
            s.condvars.update(id, Some(Seq::<usize>::empty()))
        } else {
            s.condvars.push(Some(Seq::<usize>::empty()))
        },
        ..s
    };
    assert forall|t: int| #[trigger] valid_thread(s2, t) implies thread_wf(s2, thread_of(s2, t)) by {
        assert(valid_thread(s, t));
    }
    assert forall|i: int, k: int|
        valid_mutex(s2, i) && 0 <= k < mutex_of(s2, i).waiters.len() implies valid_thread(
        s2,
        #[trigger] mutex_of(s2, i).waiters[k].0 as int,
    ) by {
        assert(valid_mutex(s, i));
        assert(valid_thread(s, mutex_of(s, i).waiters[k].0 as int));
    }
    assert forall|i: int, k: int|
        valid_semaphore(s2, i) && 0 <= k < semaphore_of(s2, i).waiters.len() implies valid_thread(
        s2,
        #[trigger] semaphore_of(s2, i).waiters[k] as int,
    ) by {
        assert(valid_semaphore(s, i));
        assert(valid_thread(s, semaphore_of(s, i).waiters[k] as int));
    }
    assert forall|i: int, k: int|
        valid_condvar(s2, i) && 0 <= k < condvar_of(s2, i).len() implies valid_thread(
        s2,
        #[trigger] condvar_of(s2, i)[k] as int,
    ) by {
        if i != id {
            assert(valid_condvar(s, i));
            assert(valid_thread(s, condvar_of(s, i)[k] as int));
        }
    }
}




// ----- laws -----

proof fn lemma_held_remove_absent(h: Seq<usize>, x: usize)
    requires
        !h.contains(x),
    ensures
        held_remove(h, x) == h,
    decreases h.len(),
{
    reveal(Seq::filter);
    if h.len() > 0 {
        let t = h.drop_last();
        assert(!t.contains(x)) by {
            if t.contains(x) {
                let a = choose|a: int| 0 <= a < t.len() && t[a] == x;
                assert(h[a] == x);
            }
        }
        lemma_held_remove_absent(t, x);
        assert(h.last() != x) by {
            assert(h[h.len() - 1] == h.last());
        }
        assert(held_remove(h, x) == t.push(h.last()));
        assert(t.push(h.last()) =~= h);
    }
}

/// Locking a free mutex and unlocking it again from the same thread, which
/// did not hold it before, gives back the state it started from.
pub proof fn law_unlock_undoes_lock(s: SyncModel, t: usize, id: usize)
    requires
        sync_wf(s),
        valid_thread(s, t as int),
        valid_mutex(s, id as int),
        !mutex_of(s, id as int).locked,
        mutex_of(s, id as int).waiters.len() == 0,
        !thread_of(s, t as int).held_mutexes.contains(id),
    ensures
        lock_step(s, t, id, true).1 == Step::Return(0),
        unlock_step(forget_mutex(lock_step(s, t, id, true).0, t as int, id), id) == s,
{
    let m = mutex_of(s, id as int);
    let th = thread_of(s, t as int);
    let s1 = lock_step(s, t, id, true).0;
    lemma_held_remove_absent(th.held_mutexes, id);
    let h2 = th.held_mutexes.push(id);
    assert(held_remove(h2, id) == th.held_mutexes) by {
        reveal(Seq::filter);
        assert(h2.drop_last() =~= th.held_mutexes);
    }
    let s2 = forget_mutex(s1, t as int, id);
    assert(s2.tasks =~= s.tasks) by {
        assert(s2.tasks[t as int] == Some(ThreadModel { held_mutexes: th.held_mutexes, ..th }));
    }
    let s3 = unlock_step(s2, id);
    assert(s3.mutexes =~= s.mutexes) by {
        assert(mutex_of(s2, id as int) == MutexModel { locked: true, ..m });
    }
}

/// A `down` that does not block followed by an `up` from the same thread,
/// which did not hold the semaphore before, gives back the state it started from.
pub proof fn law_up_undoes_down(s: SyncModel, t: usize, id: usize)
    requires
        sync_wf(s),
        valid_thread(s, t as int),
        valid_semaphore(s, id as int),
        semaphore_of(s, id as int).count >= 1,
        !thread_of(s, t as int).held_semaphores.contains(id),
    ensures
        down_step(s, t, id).1 == Step::Return(0),
        up_step(forget_semaphore(down_step(s, t, id).0, t as int, id), id) == s,
{
    let m = semaphore_of(s, id as int);
    let th = thread_of(s, t as int);
    let s1 = down_step(s, t, id).0;
    lemma_held_remove_absent(th.held_semaphores, id);
    let h2 = th.held_semaphores.push(id);
    assert(held_remove(h2, id) == th.held_semaphores) by {
        reveal(Seq::filter);
        assert(h2.drop_last() =~= th.held_semaphores);
    }
    let s2 = forget_semaphore(s1, t as int, id);
    assert(s2.tasks =~= s.tasks) by {
        assert(s2.tasks[t as int] == Some(ThreadModel { held_semaphores: th.held_semaphores, ..th }));
    }
    let s3 = up_step(s2, id);
    assert(s3.semaphores =~= s.semaphores) by {
        assert(semaphore_of(s2, id as int) == SemaphoreModel { count: (m.count - 1) as isize, ..m });
    }
}

/// Runs the banker's algorithm over the mutexes, with thread `tid` asking
/// for mutex `requested_mutex_id`; `true` (a deadlock) when the state is not safe.
pub fn detect_deadlock_mutex(sync: &ProcessSync, tid: usize, requested_mutex_id: usize) -> (deadlock: bool)
    requires
        sync_wf(sync@),
        requested_mutex_id < sync@.mutexes.len(),
    ensures
        deadlock == !mutex_state_safe(sync@, tid, requested_mutex_id),
{
    let ghost s = sync@;
    let num_processes = sync.tasks.len();
    let num_mutexes = sync.mutex_list.len();
    let n = num_processes;
    let m = num_mutexes;
    // allocation
    let mut allocation: Vec<Vec<usize>> = Vec::new();
    let mut t: usize = 0;
    while t < n
        invariant
            s == sync@,
            n == s.tasks.len(),
            m == s.mutexes.len(),
            t <= n,
            allocation@.len() == t,
            forall|i: int| 0 <= i < t ==> #[trigger] allocation@[i]@ == mutex_allocation(s)[i],
        decreases n - t,
    {
        let row = match &sync.tasks[t] {
            Some(th) => indicator_row(&th.held_mutexes, m),
            None => indicator_row(&Vec::new(), m),
        };
        proof {
            assert(row@ =~= mutex_allocation(s)[t as int]);
        }
        allocation.push(row);
        t = t + 1;
    }
    // available
    let mut available: Vec<usize> = Vec::new();
    let mut j: usize = 0;
    while j < m
        invariant
            j <= m,
            available@.len() == j,
            forall|q: int| 0 <= q < j ==> #[trigger] available@[q] == 1,
        decreases m - j,
    {
        available.push(1);
        j = j + 1;
    }
    let mut t2: usize = 0;
    while t2 < n
        invariant
            s == sync@,
            n == s.tasks.len(),
            m == s.mutexes.len(),
            t2 <= n,
            allocation@.len() == n,
            forall|i: int| 0 <= i < n ==> #[trigger] allocation@[i]@ == mutex_allocation(s)[i],
            available@.len() == m,
            forall|q: int|
                0 <= q < m ==> #[trigger] available@[q] == indicator(
                    !exists|u: int| 0 <= u < t2 && #[trigger] holds_mutex(s, u, q),
                ),
        decreases n - t2,
    {
        let mut q: usize = 0;
        let ghost before = available@;
        while q < m
            invariant
                s == sync@,
                n == s.tasks.len(),
                m == s.mutexes.len(),
                t2 < n,
                q <= m,
                allocation@.len() == n,
                forall|i: int| 0 <= i < n ==> #[trigger] allocation@[i]@ == mutex_allocation(s)[i],
                available@.len() == m,
                forall|p: int|
                    0 <= p < q ==> #[trigger] available@[p] == indicator(
                        !exists|u: int| 0 <= u < t2 + 1 && #[trigger] holds_mutex(s, u, p),
                    ),
                forall|p: int| q <= p < m ==> #[trigger] available@[p] == before[p],
                forall|p: int|
                    0 <= p < m ==> #[trigger] before[p] == indicator(
                        !exists|u: int| 0 <= u < t2 && #[trigger] holds_mutex(s, u, p),
                    ),
            decreases m - q,
        {
            assert(allocation@[t2 as int]@ == mutex_allocation(s)[t2 as int]);
            if allocation[t2][q] == 1 {
                available.set(q, 0);
                proof {
                    assert(holds_mutex(s, t2 as int, q as int));
                }
            } else {
                proof {
                    assert(!holds_mutex(s, t2 as int, q as int));
                    if exists|u: int| 0 <= u < t2 + 1 && #[trigger] holds_mutex(s, u, q as int) {
                        let u = choose|u: int| 0 <= u < t2 + 1 && #[trigger] holds_mutex(s, u, q as int);
                        assert(u < t2);
                    }
                }
            }
            q = q + 1;
        }
        t2 = t2 + 1;
    }
    // need
    let mut need: Vec<Vec<usize>> = Vec::new();
    let mut t3: usize = 0;
    while t3 < n
        invariant
            s == sync@,
            sync_wf(s),
            n == s.tasks.len(),
            m == s.mutexes.len(),
            requested_mutex_id < m,
            t3 <= n,
            allocation@.len() == n,
            forall|i: int| 0 <= i < n ==> #[trigger] allocation@[i]@ == mutex_allocation(s)[i],
            need@.len() == t3,
            forall|i: int| 0 <= i < t3 ==> #[trigger] need@[i]@ == mutex_need(s, tid, requested_mutex_id)[i],
        decreases n - t3,
    {
        let mut row: Vec<usize> = Vec::new();
        let mut q: usize = 0;
        while q < m
            invariant
                s == sync@,
                sync_wf(s),
                n == s.tasks.len(),
                m == s.mutexes.len(),
                t3 < n,
                q <= m,
                allocation@.len() == n,
                forall|i: int| 0 <= i < n ==> #[trigger] allocation@[i]@ == mutex_allocation(s)[i],
                row@.len() == q,
                forall|p: int|
                    0 <= p < q ==> #[trigger] row@[p] == (indicator(s.mutexes[p] is Some) - indicator(
                        holds_mutex(s, t3 as int, p),
                    )) as usize,
            decreases m - q,
        {
            let exists_now: usize = if sync.mutex_list[q].is_some() {
                1
            } else {
                0
            };
            assert(allocation@[t3 as int]@ == mutex_allocation(s)[t3 as int]);
            proof {
                if holds_mutex(s, t3 as int, q as int) {
                    assert(valid_thread(s, t3 as int));
                    let th = thread_of(s, t3 as int);
                    assert(thread_wf(s, th));
                    let a = choose|a: int| 0 <= a < th.held_mutexes.len() && th.held_mutexes[a] == q;
                    assert(valid_mutex(s, th.held_mutexes[a] as int));
                }
            }
            row.push(exists_now - allocation[t3][q]);
            q = q + 1;
        }
        if t3 == tid && sync.mutex_list[requested_mutex_id].is_some() {
            row.set(requested_mutex_id, 1);
        }
        proof {
            assert(row@ =~= mutex_need(s, tid, requested_mutex_id)[t3 as int]);
        }
        need.push(row);
        t3 = t3 + 1;
    }
    proof {
        assert(rows_view(allocation@) =~= mutex_allocation(s));
        assert(rows_view(need@) =~= mutex_need(s, tid, requested_mutex_id));
        assert(available@ =~= mutex_available(s));
        assert forall|q: int| 0 <= q < m implies available@[q] + #[trigger] column_total(
            rows_view(allocation@),
            q,
            n as int,
        ) <= usize::MAX by {
            lemma_column_total_bounded(rows_view(allocation@), q, n as int);
        }
    }
    !is_safe_state(num_processes, num_mutexes, available.as_slice(), allocation.as_slice(), need.as_slice())
}

/// Runs the banker's algorithm over the semaphores, with thread `tid`
/// asking for semaphore `requested_sem_id`; `true` (a deadlock) when the
/// state is not safe.
pub fn detect_deadlock_semaphore(sync: &ProcessSync, tid: usize, requested_sem_id: usize) -> (deadlock: bool)
    requires
        sync_wf(sync@),
        requested_sem_id < sync@.semaphores.len(),
    ensures
        deadlock == !semaphore_state_safe(sync@, tid, requested_sem_id),
{
    let ghost s = sync@;
    let num_processes = sync.tasks.len();
    let num_sems = sync.semaphore_list.len();
    let n = num_processes;
    let m = num_sems;
    // available
    let mut available: Vec<usize> = Vec::new();
    let mut j: usize = 0;
    while j < m
        invariant
            s == sync@,
            m == s.semaphores.len(),
            j <= m,
            available@.len() == j,
            forall|q: int| 0 <= q < j ==> #[trigger] available@[q] == semaphore_available(s)[q],
        decreases m - j,
    {
        let a = match &sync.semaphore_list[j] {
            Some(sem) => sem.available(),
            None => 0,
        };
        available.push(a);
        j = j + 1;
    }
    // allocation
    let mut allocation: Vec<Vec<usize>> = Vec::new();
    let mut t: usize = 0;
    while t < n
        invariant
            s == sync@,
            sync_wf(s),
            n == s.tasks.len(),
            m == s.semaphores.len(),
            t <= n,
            allocation@.len() == t,
            forall|i: int| 0 <= i < t ==> #[trigger] allocation@[i]@ == semaphore_allocation(s)[i],
        decreases n - t,
    {
        let row = match &sync.tasks[t] {
            Some(th) => {
                proof {
                    assert(valid_thread(s, t as int));
                    assert(thread_wf(s, thread_of(s, t as int)));
                }
                count_row(&th.held_semaphores, m)
            },
            None => count_row(&Vec::new(), m),
        };
        proof {
            assert(row@ =~= semaphore_allocation(s)[t as int]);
        }
        allocation.push(row);
        t = t + 1;
    }
    // need
    let mut need: Vec<Vec<usize>> = Vec::new();
    let mut t3: usize = 0;
    while t3 < n
        invariant
            s == sync@,
            sync_wf(s),
            n == s.tasks.len(),
            m == s.semaphores.len(),
            requested_sem_id < m,
            t3 <= n,
            allocation@.len() == n,
            forall|i: int| 0 <= i < n ==> #[trigger] allocation@[i]@ == semaphore_allocation(s)[i],
            need@.len() == t3,
            forall|i: int| 0 <= i < t3 ==> #[trigger] need@[i]@ == semaphore_need(s, tid, requested_sem_id)[i],
        decreases n - t3,
    {
        let mut row: Vec<usize> = Vec::new();
        let mut q: usize = 0;
        while q < m
            invariant
                s == sync@,
                sync_wf(s),
                n == s.tasks.len(),
                m == s.semaphores.len(),
                t3 < n,
                q <= m,
                allocation@.len() == n,
                forall|i: int| 0 <= i < n ==> #[trigger] allocation@[i]@ == semaphore_allocation(s)[i],
                row@.len() == q,
                forall|p: int|
                    0 <= p < q ==> #[trigger] row@[p] == (indicator(s.semaphores[p] is Some) - indicator(
                        holds_semaphore(s, t3 as int, p),
                    )) as usize,
            decreases m - q,
        {
            let exists_now: usize = if sync.semaphore_list[q].is_some() {
                1
            } else {
                0
            };
            assert(allocation@[t3 as int]@ == semaphore_allocation(s)[t3 as int]);
            proof {
                if holds_semaphore(s, t3 as int, q as int) {
                    assert(valid_thread(s, t3 as int));
                    let th = thread_of(s, t3 as int);
                    assert(thread_wf(s, th));
                    let a = choose|a: int| 0 <= a < th.held_semaphores.len() && th.held_semaphores[a] == q;
                    assert(valid_semaphore(s, th.held_semaphores[a] as int));
                }
            }
            row.push(exists_now - allocation[t3][q]);
            q = q + 1;
        }
        if t3 == tid && sync.semaphore_list[requested_sem_id].is_some() {
            row.set(requested_sem_id, 1);
        }
        proof {
            assert(row@ =~= semaphore_need(s, tid, requested_sem_id)[t3 as int]);
        }
        need.push(row);
        t3 = t3 + 1;
    }
    proof {
        assert(rows_view(allocation@) =~= semaphore_allocation(s));
        assert(rows_view(need@) =~= semaphore_need(s, tid, requested_sem_id));
        assert(available@ =~= semaphore_available(s));
        assert forall|q: int| 0 <= q < m implies available@[q] + #[trigger] column_total(
            rows_view(allocation@),
            q,
            n as int,
        ) <= usize::MAX by {
            lemma_column_total_bounded(rows_view(allocation@), q, n as int);
        }
    }
    !is_safe_state(num_processes, num_sems, available.as_slice(), allocation.as_slice(), need.as_slice())
}

/// Creates a mutex (blocking or spinning) in the first free slot of the
/// mutex table, or at its end, and returns its id.
pub fn sys_mutex_create(sync: &mut ProcessSync, blocking: bool) -> (id: isize)
    requires
        sync_wf(old(sync)@),
        old(sync)@.mutexes.len() < isize::MAX,
    ensures
        id >= 0,
        slot_for(old(sync)@.mutexes, id as int),
        final(sync)@ == (SyncModel {
            mutexes: placed(
                old(sync)@.mutexes,
                id as int,
                MutexModel { blocking, locked: false, waiters: Seq::empty() },
            ),
            ..old(sync)@
        }),
        sync_wf(final(sync)@),
{
    let ghost s0 = sync@;
    let mutex = MutexObj::new(blocking);
    let ghost x = mutex.deep_view();
    let id = alloc_slot(&mut sync.mutex_list, mutex);
    proof {
        lemma_slot_for_deep(old(sync).mutex_list@, s0.mutexes, id as int);
        assert(sync@.mutexes =~= placed(s0.mutexes, id as int, x));
        lemma_wf_new_mutex(s0, id as int, x);
    }
    id as isize
}

/// Takes mutex `mutex_id` for thread `tid`, recording it as held. When
/// deadlock detection is on and the banker's check on the mutexes finds
/// that the request would leave the state unsafe (a deadlock), the call is
/// refused with `-0xDEAD` and nothing changes. A thread told to spin
/// ([`Step::Yield`]) retries with [`mutex_lock_retry`], which does not check
/// again.
pub fn sys_mutex_lock(sync: &mut ProcessSync, tid: usize, mutex_id: usize) -> (step: Step)
    requires
        sync_wf(old(sync)@),
        valid_thread(old(sync)@, tid as int),
        !is_waiting(old(sync)@, tid),
        valid_mutex(old(sync)@, mutex_id as int),
    ensures
        sync_wf(final(sync)@),
        old(sync)@.detection && !mutex_state_safe(old(sync)@, tid, mutex_id) ==> step == Step::Return(
            DEADLOCK_ERROR,
        ) && final(sync)@ == old(sync)@,
        !(old(sync)@.detection && !mutex_state_safe(old(sync)@, tid, mutex_id)) ==> (final(sync)@, step)
            == lock_step(old(sync)@, tid, mutex_id, true),
{
    if sync.deadlock_detection_enabled {
        if detect_deadlock_mutex(sync, tid, mutex_id) {
            return Step::Return(DEADLOCK_ERROR);
        }
    }
    sync.lock_exec(tid, mutex_id, true)
}

/// Thread `tid`, spinning on mutex `mutex_id`, tries again to take it
/// (see [`lock_step`]); the deadlock check was made by the first attempt.
pub fn mutex_lock_retry(sync: &mut ProcessSync, tid: usize, mutex_id: usize) -> (step: Step)
    requires
        sync_wf(old(sync)@),
        valid_thread(old(sync)@, tid as int),
        !is_waiting(old(sync)@, tid),
        valid_mutex(old(sync)@, mutex_id as int),
    ensures
        (final(sync)@, step) == lock_step(old(sync)@, tid, mutex_id, true),
        sync_wf(final(sync)@),
{
    sync.lock_exec(tid, mutex_id, true)
}

/// Releases mutex `mutex_id`: thread `tid` stops recording it as held and
/// the mutex is unlocked (see [`unlock_step`]).
pub fn sys_mutex_unlock(sync: &mut ProcessSync, tid: usize, mutex_id: usize) -> (r: isize)
    requires
        sync_wf(old(sync)@),
        valid_thread(old(sync)@, tid as int),
        !is_waiting(old(sync)@, tid),
        valid_mutex(old(sync)@, mutex_id as int),
        mutex_of(old(sync)@, mutex_id as int).blocking ==> mutex_of(old(sync)@, mutex_id as int).locked,
    ensures
        r == 0,
        final(sync)@ == unlock_step(forget_mutex(old(sync)@, tid as int, mutex_id), mutex_id),
        sync_wf(final(sync)@),
{
    proof {
        lemma_wf_forget_mutex(sync@, tid as int, mutex_id);
    }
    sync.forget_mutex_exec(tid, mutex_id);
    sync.unlock_exec(mutex_id);
    0
}

/// Creates a semaphore with `res_count` instances in the first free slot
/// of the semaphore table, or at its end, and returns its id.
pub fn sys_semaphore_create(sync: &mut ProcessSync, res_count: usize) -> (id: isize)
    requires
        sync_wf(old(sync)@),
        old(sync)@.semaphores.len() < isize::MAX,
    ensures
        id >= 0,
        slot_for(old(sync)@.semaphores, id as int),
        final(sync)@ == (SyncModel {
            semaphores: placed(
                old(sync)@.semaphores,
                id as int,
                SemaphoreModel { count: res_count as isize, waiters: Seq::empty() },
            ),
            ..old(sync)@
        }),
        sync_wf(final(sync)@),
{
    let ghost s0 = sync@;
    let sem = SemaphoreObj::new(res_count);
    let ghost x = sem.deep_view();
    let id = alloc_slot(&mut sync.semaphore_list, sem);
    proof {
        lemma_slot_for_deep(old(sync).semaphore_list@, s0.semaphores, id as int);
        assert(sync@.semaphores =~= placed(s0.semaphores, id as int, x));
        lemma_wf_new_semaphore(s0, id as int, x);
    }
    id as isize
}

/// `up` on semaphore `sem_id`: thread `tid` stops recording it as held,
/// then the count grows (see [`up_step`]).
pub fn sys_semaphore_up(sync: &mut ProcessSync, tid: usize, sem_id: usize) -> (r: isize)
    requires
        sync_wf(old(sync)@),
        valid_thread(old(sync)@, tid as int),
        !is_waiting(old(sync)@, tid),
        valid_semaphore(old(sync)@, sem_id as int),
        semaphore_of(old(sync)@, sem_id as int).count < isize::MAX,
    ensures
        r == 0,
        final(sync)@ == up_step(forget_semaphore(old(sync)@, tid as int, sem_id), sem_id),
        sync_wf(final(sync)@),
{
    proof {
        lemma_wf_forget_semaphore(sync@, tid as int, sem_id);
    }
    sync.forget_semaphore_exec(tid, sem_id);
    sync.up_exec(sem_id);
    0
}

/// `down` on semaphore `sem_id` by thread `tid` (see [`down_step`]). When
/// deadlock detection is on and the banker's check on the semaphores finds
/// that the request would leave the state unsafe (a deadlock), the call is
/// refused with `-0xDEAD` and nothing changes.
pub fn sys_semaphore_down(sync: &mut ProcessSync, tid: usize, sem_id: usize) -> (step: Step)
    requires
        sync_wf(old(sync)@),
        valid_thread(old(sync)@, tid as int),
        !is_waiting(old(sync)@, tid),
        valid_semaphore(old(sync)@, sem_id as int),
        semaphore_of(old(sync)@, sem_id as int).count > isize::MIN,
    ensures
        sync_wf(final(sync)@),
        old(sync)@.detection && !semaphore_state_safe(old(sync)@, tid, sem_id) ==> step == Step::Return(
            DEADLOCK_ERROR,
        ) && final(sync)@ == old(sync)@,
        !(old(sync)@.detection && !semaphore_state_safe(old(sync)@, tid, sem_id)) ==> (final(sync)@, step)
            == down_step(old(sync)@, tid, sem_id),
{
    if sync.deadlock_detection_enabled {
        if detect_deadlock_semaphore(sync, tid, sem_id) {
            return Step::Return(DEADLOCK_ERROR);
        }
    }
    sync.down_exec(tid, sem_id)
}

/// Creates a condition variable in the first free slot of the table, or at
/// its end, and returns its id.
pub fn sys_condvar_create(sync: &mut ProcessSync) -> (id: isize)
    requires
        sync_wf(old(sync)@),
        old(sync)@.condvars.len() < isize::MAX,
    ensures
        id >= 0,
        slot_for(old(sync)@.condvars, id as int),
        final(sync)@ == (SyncModel {
            condvars: placed(old(sync)@.condvars, id as int, Seq::<usize>::empty()),
            ..old(sync)@
        }),
        sync_wf(final(sync)@),
{
    let ghost s0 = sync@;
    let cv = CondvarObj::new();
    let id = alloc_slot(&mut sync.condvar_list, cv);
    proof {
        lemma_slot_for_deep(old(sync).condvar_list@, s0.condvars, id as int);
        assert(sync@.condvars =~= placed(s0.condvars, id as int, Seq::<usize>::empty()));
        lemma_wf_new_condvar(s0, id as int);
    }
    id as isize
}

/// Wakes the first thread waiting on condition variable `condvar_id`, if any.
pub fn sys_condvar_signal(sync: &mut ProcessSync, condvar_id: usize) -> (r: isize)
    requires
        sync_wf(old(sync)@),
        valid_condvar(old(sync)@, condvar_id as int),
    ensures
        r == 0,
        condvar_of(old(sync)@, condvar_id as int).len() > 0 ==> final(sync)@ == wake(
            set_condvar(
                old(sync)@,
                condvar_id as int,
                condvar_of(old(sync)@, condvar_id as int).drop_first(),
            ),
            condvar_of(old(sync)@, condvar_id as int)[0],
        ),
        condvar_of(old(sync)@, condvar_id as int).len() == 0 ==> final(sync)@ == old(sync)@,
        sync_wf(final(sync)@),
{
    let ghost s0 = sync@;
    let id = condvar_id;
    let mut c = sync.take_condvar(id);
    let w = c.wait_queue.pop_front();
    proof {
        let q = condvar_of(s0, id as int);
        assert forall|k: int| 0 <= k < c.wait_queue@.len() implies valid_thread(s0, #[trigger] c.wait_queue@[k] as int) by {
            if q.len() > 0 {
                assert(c.wait_queue@[k] == q[k + 1]);
                assert(valid_thread(s0, q[k + 1] as int));
            }
        }
        lemma_wf_set_condvar(s0, id as int, c.wait_queue@);
    }
    sync.put_condvar(id, c, Ghost(s0));
    match w {
        Some(t) => {
            proof {
                lemma_wf_wake(sync@, t);
            }
            sync.wake_exec(t);
        },
        None => {
            proof {
                assert(sync@.condvars =~= s0.condvars);
            }
        },
    }
    0
}

/// Thread `tid` releases mutex `mutex_id` (see [`unlock_step`]) and waits on
/// condition variable `condvar_id`; once woken it retakes the mutex with
/// [`condvar_wait_relock`].
pub fn sys_condvar_wait(sync: &mut ProcessSync, tid: usize, condvar_id: usize, mutex_id: usize) -> (step: Step)
    requires
        sync_wf(old(sync)@),
        valid_thread(old(sync)@, tid as int),
        !is_waiting(old(sync)@, tid),
        valid_condvar(old(sync)@, condvar_id as int),
        valid_mutex(old(sync)@, mutex_id as int),
        mutex_of(old(sync)@, mutex_id as int).blocking ==> mutex_of(old(sync)@, mutex_id as int).locked,
    ensures
        step == Step::Block,
        final(sync)@ == set_condvar(
            unlock_step(old(sync)@, mutex_id),
            condvar_id as int,
            condvar_of(old(sync)@, condvar_id as int).push(tid),
        ),
        sync_wf(final(sync)@),
{
    sync.unlock_exec(mutex_id);
    let ghost s1 = sync@;
    proof {
        assert(valid_condvar(s1, condvar_id as int));
        assert(valid_thread(s1, tid as int));
    }
    let mut c = sync.take_condvar(condvar_id);
    c.wait_queue.push_back(tid);
    proof {
        let q = condvar_of(s1, condvar_id as int);
        assert forall|k: int| 0 <= k < c.wait_queue@.len() implies valid_thread(s1, #[trigger] c.wait_queue@[k] as int) by {
            if k < q.len() {
                assert(valid_thread(s1, q[k] as int));
            }
        }
        lemma_wf_set_condvar(s1, condvar_id as int, c.wait_queue@);
    }
    sync.put_condvar(condvar_id, c, Ghost(s1));
    Step::Block
}

/// A thread woken from a condition variable retakes mutex `mutex_id`
/// (see [`lock_step`]; it does not record the mutex as held).
pub fn condvar_wait_relock(sync: &mut ProcessSync, tid: usize, mutex_id: usize) -> (step: Step)
    requires
        sync_wf(old(sync)@),
        valid_thread(old(sync)@, tid as int),
        !is_waiting(old(sync)@, tid),
        valid_mutex(old(sync)@, mutex_id as int),
    ensures
        (final(sync)@, step) == lock_step(old(sync)@, tid, mutex_id, false),
        sync_wf(final(sync)@),
{
    sync.lock_exec(tid, mutex_id, false)
}

/// Turns deadlock detection on (1) or off (0); any other value is refused
/// with -1 and changes nothing.
pub fn sys_enable_deadlock_detect(sync: &mut ProcessSync, enabled: usize) -> (r: isize)
    requires
        sync_wf(old(sync)@),
    ensures
        enabled != 0 && enabled != 1 ==> r == -1 && final(sync)@ == old(sync)@,
        enabled == 0 || enabled == 1 ==> r == 0 && final(sync)@ == (SyncModel {
            detection: enabled == 1,
            ..old(sync)@
        }),
        sync_wf(final(sync)@),
{
    if enabled != 0 && enabled != 1 {
        return -1;
    }
    proof {
        lemma_wf_same_tables(sync@, SyncModel { detection: enabled == 1, ..sync@ });
    }
    sync.deadlock_detection_enabled = enabled == 1;
    0
}

/// Thread `tid` sleeps for `ms` milliseconds from `now_ms`: a timer for it
/// is set at `now_ms + ms` and the thread blocks.
pub fn sys_sleep(sync: &mut ProcessSync, tid: usize, ms: usize, now_ms: usize) -> (step: Step)
    requires
        sync_wf(old(sync)@),
        now_ms + ms <= usize::MAX,
    ensures
        step == Step::Block,
        final(sync)@ == (SyncModel {
            timers: old(sync)@.timers.push(TimerEntry { expire_ms: (now_ms + ms) as usize, tid }),
            ..old(sync)@
        }),
        sync_wf(final(sync)@),
{
    let expire_ms = now_ms + ms;
    proof {
        lemma_wf_same_tables(
            sync@,
            SyncModel { timers: sync@.timers.push(TimerEntry { expire_ms, tid }), ..sync@ },
        );
    }
    sync.timers.push(TimerEntry { expire_ms, tid });
    Step::Block
}

/// A thread that asks for a locked mutex does not get it: it waits or spins,
/// and the mutex stays locked.
pub proof fn law_locked_mutex_not_taken(s: SyncModel, t: usize, id: usize, record: bool)
    requires
        valid_mutex(s, id as int),
        mutex_of(s, id as int).locked,
    ensures
        lock_step(s, t, id, record).1 != Step::Return(0),
        mutex_of(lock_step(s, t, id, record).0, id as int).locked,
{
}

/// The state after each attempt of `attempts` (thread, mutex, whether the
/// thread records the mutex) to take a mutex, in turn.
pub open spec fn lock_run(s: SyncModel, attempts: Seq<(usize, usize, bool)>) -> SyncModel
    decreases attempts.len(),
{
    if attempts.len() == 0 {
        s
    } else {
        let a = attempts.last();
        lock_step(lock_run(s, attempts.drop_last()), a.0, a.1, a.2).0
    }
}

/// How many attempts of `attempts` take mutex `id`.
pub open spec fn lock_run_taken(s: SyncModel, attempts: Seq<(usize, usize, bool)>, id: usize) -> nat
    decreases attempts.len(),
{
    if attempts.len() == 0 {
        0
    } else {
        let a = attempts.last();
        let before = lock_run(s, attempts.drop_last());
        lock_run_taken(s, attempts.drop_last(), id) + if a.1 == id && lock_step(before, a.0, a.1, a.2).1
            == Step::Return(0) {
            1nat
        } else {
            0nat
        }
    }
}

/// Mutual exclusion: in a run of attempts to take mutexes with no release
/// among them, at most one attempt takes a given mutex, none when it starts
/// locked, and once taken it stays locked to the end of the run.
pub proof fn law_mutual_exclusion(s: SyncModel, attempts: Seq<(usize, usize, bool)>, id: usize)
    requires
        valid_mutex(s, id as int),
        forall|k: int| 0 <= k < attempts.len() ==> valid_mutex(s, #[trigger] attempts[k].1 as int),
    ensures
        lock_run_taken(s, attempts, id) + (if mutex_of(s, id as int).locked {
            1int
        } else {
            0int
        }) <= 1,
        mutex_of(lock_run(s, attempts), id as int).locked == (mutex_of(s, id as int).locked || lock_run_taken(
            s,
            attempts,
            id,
        ) == 1),
        lock_run(s, attempts).mutexes.len() == s.mutexes.len(),
        forall|j: int| #[trigger] valid_mutex(s, j) ==> valid_mutex(lock_run(s, attempts), j),
    decreases attempts.len(),
{
    if attempts.len() > 0 {
        let prefix = attempts.drop_last();
        assert forall|k: int| 0 <= k < prefix.len() implies valid_mutex(s, #[trigger] prefix[k].1 as int) by {
            assert(prefix[k] == attempts[k]);
        }
        law_mutual_exclusion(s, prefix, id);
        let before = lock_run(s, prefix);
        let a = attempts.last();
        assert(valid_mutex(s, attempts[attempts.len() - 1].1 as int));
        assert(valid_mutex(before, a.1 as int));
        assert(valid_mutex(before, id as int));
        let m = mutex_of(before, a.1 as int);
        let after = lock_step(before, a.0, a.1, a.2).0;
        assert(after.mutexes.len() == before.mutexes.len());
        assert forall|j: int| #[trigger] valid_mutex(before, j) implies valid_mutex(after, j) && (j != a.1 ==> mutex_of(
            after,
            j,
        ) == mutex_of(before, j)) by {}
        assert forall|j: int| #[trigger] valid_mutex(s, j) implies valid_mutex(lock_run(s, attempts), j) by {
            assert(valid_mutex(before, j));
        }
    }
}

/// Releasing a blocking mutex that threads wait for keeps it locked: it
/// passes to the first waiter, who leaves the queue and is woken.
pub proof fn law_unlock_hands_over(s: SyncModel, id: usize)
    requires
        valid_mutex(s, id as int),
        mutex_of(s, id as int).blocking,
        mutex_of(s, id as int).waiters.len() > 0,
    ensures
        mutex_of(unlock_step(s, id), id as int).locked == mutex_of(s, id as int).locked,
        mutex_of(unlock_step(s, id), id as int).waiters == mutex_of(s, id as int).waiters.drop_first(),
        unlock_step(s, id).ready == s.ready.push(mutex_of(s, id as int).waiters[0].0),
{
}

/// A negative count is exactly the number of waiting threads; a
/// non-negative one has none waiting.
pub open spec fn semaphore_balanced(m: SemaphoreModel) -> bool {
    m.waiters.len() == if m.count < 0 {
        -m.count
    } else {
        0
    }
}

/// `up` and `down` keep a semaphore's count in step with its waiters.
pub proof fn law_semaphore_count_tracks_waiters(s: SyncModel, t: usize, id: usize)
    requires
        valid_semaphore(s, id as int),
        semaphore_balanced(semaphore_of(s, id as int)),
        isize::MIN < semaphore_of(s, id as int).count < isize::MAX,
    ensures
        semaphore_balanced(semaphore_of(up_step(s, id), id as int)),
        semaphore_balanced(semaphore_of(down_step(s, t, id).0, id as int)),
{
}

/// A system call in a run of calls (see [`call_step`]).
pub enum SyncCall {
    /// `sys_mutex_lock(thread, mutex)`, when it is not refused.
    Lock(usize, usize),
    /// `sys_mutex_unlock(thread, mutex)`.
    Unlock(usize, usize),
    /// `sys_semaphore_up(thread, semaphore)`.
    Up(usize, usize),
    /// `sys_semaphore_down(thread, semaphore)`, when it is not refused.
    Down(usize, usize),
    /// `sys_condvar_signal(condvar)`.
    Signal(usize),
}

/// The state after call `c`, as the call's contract gives it.
pub open spec fn call_step(s: SyncModel, c: SyncCall) -> SyncModel {
    match c {
        SyncCall::Lock(t, id) => lock_step(s, t, id, true).0,
        SyncCall::Unlock(t, id) => unlock_step(forget_mutex(s, t as int, id), id),
        SyncCall::Up(t, id) => up_step(forget_semaphore(s, t as int, id), id),
        SyncCall::Down(t, id) => down_step(s, t, id).0,
        SyncCall::Signal(id) => if condvar_of(s, id as int).len() > 0 {
            wake(set_condvar(s, id as int, condvar_of(s, id as int).drop_first()), condvar_of(s, id as int)[0])
        } else {
            s
        },
    }
}

/// Call `c` may be made in state `s`: its arguments name existing objects
/// and threads, and a mutex is released only by a thread that holds it.
pub open spec fn call_allowed(s: SyncModel, c: SyncCall) -> bool {
    match c {
        SyncCall::Lock(t, id) => valid_thread(s, t as int) && valid_mutex(s, id as int),
        SyncCall::Unlock(t, id) => valid_mutex(s, id as int) && holds_mutex(s, t as int, id as int),
        SyncCall::Up(t, id) => valid_thread(s, t as int) && valid_semaphore(s, id as int) && semaphore_of(
            s,
            id as int,
        ).count < isize::MAX,
        SyncCall::Down(t, id) => valid_thread(s, t as int) && valid_semaphore(s, id as int) && semaphore_of(
            s,
            id as int,
        ).count > isize::MIN,
        SyncCall::Signal(id) => valid_condvar(s, id as int),
    }
}

/// The state after each call of `calls` in turn.
pub open spec fn sync_run(s: SyncModel, calls: Seq<SyncCall>) -> SyncModel
    decreases calls.len(),
{
    if calls.len() == 0 {
        s
    } else {
        call_step(sync_run(s, calls.drop_last()), calls.last())
    }
}

/// Each call of `calls` is allowed in the state it is made in.
pub open spec fn run_allowed(s: SyncModel, calls: Seq<SyncCall>) -> bool
    decreases calls.len(),
{
    calls.len() == 0 || (run_allowed(s, calls.drop_last()) && call_allowed(
        sync_run(s, calls.drop_last()),
        calls.last(),
    ))
}

/// Mutex `id` has at most one holder, it is locked exactly when it has one,
/// and every thread waiting for it will record it when it gets it.
pub open spec fn mutex_exclusive(s: SyncModel, id: usize) -> bool {
    &&& valid_mutex(s, id as int)
    &&& forall|t1: int, t2: int|
        #[trigger] holds_mutex(s, t1, id as int) && #[trigger] holds_mutex(s, t2, id as int) ==> t1 == t2
    &&& mutex_of(s, id as int).locked == exists|t: int| #[trigger] holds_mutex(s, t, id as int)
    &&& forall|k: int| 0 <= k < mutex_of(s, id as int).waiters.len() ==> (#[trigger] mutex_of(s, id as int).waiters[k]).1
}

/// A step that leaves mutex `id`, the set of threads and whether each holds
/// `id` as they were keeps [`mutex_exclusive`].
proof fn lemma_exclusive_frame(s0: SyncModel, s1: SyncModel, id: usize)
    requires
        mutex_exclusive(s0, id),
        s1.mutexes.len() == s0.mutexes.len(),
        s1.mutexes[id as int] == s0.mutexes[id as int],
        s1.tasks.len() == s0.tasks.len(),
        forall|t: int| 0 <= t < s0.tasks.len() ==> (#[trigger] s1.tasks[t] is Some) == (s0.tasks[t] is Some),
        forall|t: int| #[trigger] holds_mutex(s1, t, id as int) == holds_mutex(s0, t, id as int),
    ensures
        mutex_exclusive(s1, id),
{
    assert forall|t1: int, t2: int|
        #[trigger] holds_mutex(s1, t1, id as int) && #[trigger] holds_mutex(s1, t2, id as int) implies t1 == t2 by {
        assert(holds_mutex(s0, t1, id as int) && holds_mutex(s0, t2, id as int));
    }
    if mutex_of(s1, id as int).locked {
        let t = choose|t: int| #[trigger] holds_mutex(s0, t, id as int);
        assert(holds_mutex(s1, t, id as int));
    }
    if exists|t: int| #[trigger] holds_mutex(s1, t, id as int) {
        let t = choose|t: int| #[trigger] holds_mutex(s1, t, id as int);
        assert(holds_mutex(s0, t, id as int));
    }
}

/// Setting thread `t`'s record (keeping whether it holds `id`) keeps the frame.
proof fn lemma_set_thread_holds(s: SyncModel, t: int, th: ThreadModel, id: usize)
    requires
        valid_thread(s, t),
        th.held_mutexes.contains(id) == thread_of(s, t).held_mutexes.contains(id),
    ensures
        forall|u: int| #[trigger] holds_mutex(set_thread(s, t, th), u, id as int) == holds_mutex(s, u, id as int),
        forall|u: int| 0 <= u < s.tasks.len() ==> (#[trigger] set_thread(s, t, th).tasks[u] is Some) == (s.tasks[u] is Some),
        set_thread(s, t, th).tasks.len() == s.tasks.len(),
{
}

/// One allowed call keeps [`mutex_exclusive`] and the invariant.
proof fn lemma_call_keeps_exclusive(s: SyncModel, c: SyncCall, id: usize)
    requires
        sync_wf(s),
        mutex_exclusive(s, id),
        call_allowed(s, c),
    ensures
        sync_wf(call_step(s, c)),
        mutex_exclusive(call_step(s, c), id),
{
    let mi = mutex_of(s, id as int);
    match c {
        SyncCall::Lock(t, j) => {
            law_lock_keeps_wf(s, t, j, true);
            let m = mutex_of(s, j as int);
            if !m.locked {
                let s1 = set_mutex(s, j as int, MutexModel { locked: true, ..m });
                let th = thread_of(s1, t as int);
                lemma_held_insert(th.held_mutexes, j);
                let s2 = record_mutex(s1, t as int, j);
                if j == id {
                    assert forall|u: int| #[trigger] holds_mutex(s2, u, id as int) <==> u == t as int by {
                        if u != t as int && holds_mutex(s2, u, id as int) {
                            assert(holds_mutex(s, u, id as int));
                        }
                    }
                    assert(!exists|u: int| #[trigger] holds_mutex(s, u, id as int));
                    assert(holds_mutex(s2, t as int, id as int));
                    assert forall|t1: int, t2: int|
                        #[trigger] holds_mutex(s2, t1, id as int) && #[trigger] holds_mutex(s2, t2, id as int) implies t1 == t2 by {}
                    assert forall|k: int| 0 <= k < mutex_of(s2, id as int).waiters.len() implies (#[trigger] mutex_of(s2, id as int).waiters[k]).1 by {
                        assert(mutex_of(s2, id as int).waiters[k] == mi.waiters[k]);
                    }
                } else {
                    lemma_set_thread_holds(s1, t as int, ThreadModel { held_mutexes: held_insert(th.held_mutexes, j), ..th }, id);
                    assert forall|u: int| #[trigger] holds_mutex(s1, u, id as int) == holds_mutex(s, u, id as int) by {}
                    lemma_exclusive_frame(s, s2, id);
                }
            } else if m.blocking {
                let s1 = set_mutex(s, j as int, MutexModel { waiters: m.waiters.push((t, true)), ..m });
                assert forall|u: int| #[trigger] holds_mutex(s1, u, id as int) == holds_mutex(s, u, id as int) by {}
                if j == id {
                    assert forall|t1: int, t2: int|
                        #[trigger] holds_mutex(s1, t1, id as int) && #[trigger] holds_mutex(s1, t2, id as int) implies t1 == t2 by {
                        assert(holds_mutex(s, t1, id as int) && holds_mutex(s, t2, id as int));
                    }
                    let t0 = choose|u: int| #[trigger] holds_mutex(s, u, id as int);
                    assert(holds_mutex(s1, t0, id as int));
                    assert forall|k: int| 0 <= k < mutex_of(s1, id as int).waiters.len() implies (#[trigger] mutex_of(s1, id as int).waiters[k]).1 by {
                        if k < mi.waiters.len() {
                            assert(mutex_of(s1, id as int).waiters[k] == mi.waiters[k]);
                        }
                    }
                } else {
                    lemma_exclusive_frame(s, s1, id);
                }
            }
        },
        SyncCall::Unlock(t, j) => {
            lemma_wf_forget_mutex(s, t as int, j);
            let th = thread_of(s, t as int);
            lemma_held_remove(th.held_mutexes, j);
            let s1 = forget_mutex(s, t as int, j);
            law_unlock_keeps_wf(s1, j);
            let m = mutex_of(s1, j as int);
            assert(m == mutex_of(s, j as int));
            if j == id {
                assert forall|u: int| !#[trigger] holds_mutex(s1, u, id as int) by {
                    if u != t as int && holds_mutex(s1, u, id as int) {
                        assert(holds_mutex(s, u, id as int));
                        assert(holds_mutex(s, t as int, id as int));
                    }
                }
                assert(mi.locked);
                if m.blocking && m.waiters.len() > 0 {
                    let w = m.waiters[0];
                    assert(w.1);
                    assert(valid_thread(s1, w.0 as int));
                    let s2 = wake(set_mutex(s1, j as int, MutexModel { waiters: m.waiters.drop_first(), ..m }), w.0);
                    assert forall|u: int| !#[trigger] holds_mutex(s2, u, id as int) by {
                        assert(!holds_mutex(s1, u, id as int));
                    }
                    let th2 = thread_of(s2, w.0 as int);
                    lemma_held_insert(th2.held_mutexes, j);
                    let s3 = record_mutex(s2, w.0 as int, j);
                    assert(s3 == call_step(s, c));
                    assert forall|u: int| #[trigger] holds_mutex(s3, u, id as int) <==> u == w.0 as int by {
                        if u != w.0 as int && holds_mutex(s3, u, id as int) {
                            assert(holds_mutex(s2, u, id as int));
                        }
                    }
                    assert(holds_mutex(s3, w.0 as int, id as int));
                    assert forall|t1: int, t2: int|
                        #[trigger] holds_mutex(s3, t1, id as int) && #[trigger] holds_mutex(s3, t2, id as int) implies t1 == t2 by {}
                    assert forall|k: int| 0 <= k < mutex_of(s3, id as int).waiters.len() implies (#[trigger] mutex_of(s3, id as int).waiters[k]).1 by {
                        assert(mutex_of(s3, id as int).waiters[k] == m.waiters[k + 1]);
                        assert(m.waiters[k + 1] == mi.waiters[k + 1]);
                    }
                } else {
                    let s2 = set_mutex(s1, j as int, MutexModel { locked: false, ..m });
                    assert forall|u: int| !#[trigger] holds_mutex(s2, u, id as int) by {
                        assert(!holds_mutex(s1, u, id as int));
                    }
                    assert forall|k: int| 0 <= k < mutex_of(s2, id as int).waiters.len() implies (#[trigger] mutex_of(s2, id as int).waiters[k]).1 by {
                        assert(mutex_of(s2, id as int).waiters[k] == mi.waiters[k]);
                    }
                }
            } else {
                lemma_set_thread_holds(s, t as int, ThreadModel { held_mutexes: held_remove(th.held_mutexes, j), ..th }, id);
                lemma_exclusive_frame(s, s1, id);
                if m.blocking && m.waiters.len() > 0 {
                    let w = m.waiters[0];
                    assert(valid_thread(s1, w.0 as int));
                    let s2 = wake(set_mutex(s1, j as int, MutexModel { waiters: m.waiters.drop_first(), ..m }), w.0);
                    assert forall|u: int| #[trigger] holds_mutex(s2, u, id as int) == holds_mutex(s1, u, id as int) by {}
                    lemma_exclusive_frame(s1, s2, id);
                    if w.1 {
                        let th2 = thread_of(s2, w.0 as int);
                        lemma_held_insert(th2.held_mutexes, j);
                        lemma_set_thread_holds(s2, w.0 as int, ThreadModel { held_mutexes: held_insert(th2.held_mutexes, j), ..th2 }, id);
                        lemma_exclusive_frame(s2, record_mutex(s2, w.0 as int, j), id);
                    }
                } else {
                    let s2 = set_mutex(s1, j as int, MutexModel { locked: false, ..m });
                    assert forall|u: int| #[trigger] holds_mutex(s2, u, id as int) == holds_mutex(s1, u, id as int) by {}
                    lemma_exclusive_frame(s1, s2, id);
                }
            }
        },
        SyncCall::Up(t, j) => {
            lemma_wf_forget_semaphore(s, t as int, j);
            let th = thread_of(s, t as int);
            let s1 = forget_semaphore(s, t as int, j);
            law_up_keeps_wf(s1, j);
            lemma_set_thread_holds(s, t as int, ThreadModel { held_semaphores: held_remove(th.held_semaphores, j), ..th }, id);
            lemma_exclusive_frame(s, s1, id);
            let m = semaphore_of(s1, j as int);
            let cnt = (m.count + 1) as isize;
            if cnt <= 0 && m.waiters.len() > 0 {
                let w = m.waiters[0];
                assert(valid_thread(s1, w as int));
                let s2 = wake(set_semaphore(s1, j as int, SemaphoreModel { count: cnt, waiters: m.waiters.drop_first() }), w);
                assert forall|u: int| #[trigger] holds_mutex(s2, u, id as int) == holds_mutex(s1, u, id as int) by {}
                lemma_exclusive_frame(s1, s2, id);
                let th2 = thread_of(s2, w as int);
                lemma_set_thread_holds(s2, w as int, ThreadModel { held_semaphores: held_insert(th2.held_semaphores, j), ..th2 }, id);
                lemma_exclusive_frame(s2, record_semaphore(s2, w as int, j), id);
            } else {
                let s2 = set_semaphore(s1, j as int, SemaphoreModel { count: cnt, ..m });
                assert forall|u: int| #[trigger] holds_mutex(s2, u, id as int) == holds_mutex(s1, u, id as int) by {}
                lemma_exclusive_frame(s1, s2, id);
            }
        },
        SyncCall::Down(t, j) => {
            law_down_keeps_wf(s, t, j);
            let m = semaphore_of(s, j as int);
            let cnt = (m.count - 1) as isize;
            if cnt < 0 {
                let s1 = set_semaphore(s, j as int, SemaphoreModel { count: cnt, waiters: m.waiters.push(t) });
                assert forall|u: int| #[trigger] holds_mutex(s1, u, id as int) == holds_mutex(s, u, id as int) by {}
                lemma_exclusive_frame(s, s1, id);
            } else {
                let s1 = set_semaphore(s, j as int, SemaphoreModel { count: cnt, ..m });
                assert forall|u: int| #[trigger] holds_mutex(s1, u, id as int) == holds_mutex(s, u, id as int) by {}
                lemma_exclusive_frame(s, s1, id);
                let th = thread_of(s1, t as int);
                lemma_set_thread_holds(s1, t as int, ThreadModel { held_semaphores: held_insert(th.held_semaphores, j), ..th }, id);
                lemma_exclusive_frame(s1, record_semaphore(s1, t as int, j), id);
            }
        },
        SyncCall::Signal(j) => {
            let q = condvar_of(s, j as int);
            if q.len() > 0 {
                assert(valid_thread(s, q[0] as int));
                let s1 = set_condvar(s, j as int, q.drop_first());
                assert forall|k: int| 0 <= k < q.drop_first().len() implies valid_thread(s, #[trigger] q.drop_first()[k] as int) by {
                    assert(q.drop_first()[k] == q[k + 1]);
                }
                lemma_wf_set_condvar(s, j as int, q.drop_first());
                lemma_wf_wake(s1, q[0]);
                let s2 = wake(s1, q[0]);
                assert forall|u: int| #[trigger] holds_mutex(s2, u, id as int) == holds_mutex(s, u, id as int) by {}
                lemma_exclusive_frame(s, s2, id);
            }
        },
    }
}

/// Mutual exclusion: along any run of lock, unlock, up, down and signal
/// calls in which a mutex is released only by a thread that holds it, a
/// mutex that starts with at most one holder (locked exactly when it has
/// one, with every waiter recording it) keeps that property after every
/// call: at no moment do two threads hold it.
pub proof fn law_mutual_exclusion_run(s: SyncModel, calls: Seq<SyncCall>, id: usize)
    requires
        sync_wf(s),
        mutex_exclusive(s, id),
        run_allowed(s, calls),
    ensures
        sync_wf(sync_run(s, calls)),
        mutex_exclusive(sync_run(s, calls), id),
        forall|t1: int, t2: int|
            #[trigger] holds_mutex(sync_run(s, calls), t1, id as int) && #[trigger] holds_mutex(
                sync_run(s, calls),
                t2,
                id as int,
            ) ==> t1 == t2,
    decreases calls.len(),
{
    if calls.len() > 0 {
        law_mutual_exclusion_run(s, calls.drop_last(), id);
        lemma_call_keeps_exclusive(sync_run(s, calls.drop_last()), calls.last(), id);
    }
}

} // verus!
