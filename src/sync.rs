//! Synchronization syscalls: mutexes and semaphores addressed by handle,
//! with blocking and waking carried out on the scheduler.
use vstd::prelude::*;
use crate::mutex::{mutex_lock, mutex_unlock, mutex_unlock_woken, Mutex, MutexBlocking};
use crate::process::{frames_below, run_next, Kernel};
use crate::sched::{bump, no_overflow, pick, SchedEntry};
use crate::semaphore::{sem_down, sem_down_blocks, sem_up, sem_up_woken, Semaphore};
use crate::task::TaskStatus;

verus! {

/// The synchronization objects created by tasks, addressed by handle.
pub struct SyncTable {
    pub mutexes: Vec<MutexBlocking>,
    pub semaphores: Vec<Semaphore>,
}

impl SyncTable {
    /// Every object keeps its own invariant.
    pub open spec fn wf(&self) -> bool {
        &&& forall|i: int| 0 <= i < self.mutexes@.len() ==> (#[trigger] self.mutexes@[i]).inv()
        &&& forall|i: int| 0 <= i < self.semaphores@.len() ==> (#[trigger] self.semaphores@[i]).wf()
    }

    /// No objects yet.
    pub fn new() -> (r: Self)
        ensures
            r.wf(),
            r.mutexes@.len() == 0,
            r.semaphores@.len() == 0,
    {
        SyncTable { mutexes: Vec::new(), semaphores: Vec::new() }
    }
}

/// Whether waking `tid` has an effect: it names a blocked task other than
/// the running one.
pub open spec fn wakeable(k: Kernel, tid: usize) -> bool {
    &&& tid < k.tasks@.len()
    &&& tid != k.current
    &&& k.tasks@[tid as int] matches Some(t) && t.task_status == TaskStatus::Blocked
}

/// Makes blocked task `tid` ready again, with its pass unchanged; does
/// nothing when `tid` does not name a blocked task other than the running one.
pub fn wakeup_task(k: &mut Kernel, tid: usize)
    requires
        old(k).wf(),
    ensures
        final(k).wf(),
        !wakeable(*old(k), tid) ==> *final(k) == *old(k),
        wakeable(*old(k), tid) ==> {
            let t = old(k).tasks@[tid as int]->0;
            &&& final(k).current == old(k).current
            &&& final(k).tasks@[tid as int]->0.task_status == TaskStatus::Ready
            &&& final(k).manager.ready@ == old(k).manager.ready@.push(
                SchedEntry { pid: tid, pass: t.pass, stride: t.stride },
            )
        },
{
    if tid >= k.tasks.len() || tid == k.current {
        return;
    }
    let blocked = match &k.tasks[tid] {
        Some(t) => t.task_status == TaskStatus::Blocked,
        None => false,
    };
    if !blocked {
        return;
    }
    let ghost k0 = *k;
    let mut slot = None;
    std::mem::swap(&mut slot, &mut k.tasks[tid]);
    match slot {
        Some(mut t) => {
            t.task_status = TaskStatus::Ready;
            let e = SchedEntry { pid: tid, pass: t.pass, stride: t.stride };
            k.tasks.set(tid, Some(t));
            k.manager.add(e);
            proof {
                assert forall|j: int|
                    0 <= j < k.tasks@.len() implies (#[trigger] k.tasks@[j] matches Some(t) ==> {
                        &&& t.pid == j
                        &&& t.wf()
                        &&& frames_below(t.memory_set@, k.nframes as int)
                    }) by {
                    if j != tid as int {
                        assert(k.tasks@[j] == k0.tasks@[j]);
                    }
                }
                let pool = k.manager.ready@;
                assert forall|a: int, b: int|
                    0 <= a < pool.len() && 0 <= b < pool.len() && a != b implies (#[trigger] pool[a]).pid
                    != (#[trigger] pool[b]).pid by {
                    if a < pool.len() - 1 {
                        assert(pool[a] == k0.manager.ready@[a]);
                        let q = pool[a].pid as int;
                        assert(k0.tasks@[q] matches Some(t) && t.task_status == TaskStatus::Ready);
                    }
                    if b < pool.len() - 1 {
                        assert(pool[b] == k0.manager.ready@[b]);
                        let q = pool[b].pid as int;
                        assert(k0.tasks@[q] matches Some(t) && t.task_status == TaskStatus::Ready);
                    }
                }
                assert forall|j: int| 0 <= j < pool.len() implies {
                    &&& (#[trigger] pool[j]).pid != k.current
                    &&& pool[j].pid < k.tasks@.len()
                    &&& k.tasks@[pool[j].pid as int] matches Some(t) && t.task_status
                        == TaskStatus::Ready
                } by {
                    if j < pool.len() - 1 {
                        assert(pool[j] == k0.manager.ready@[j]);
                        let q = pool[j].pid as int;
                        assert(k0.tasks@[q] matches Some(t) && t.task_status == TaskStatus::Ready);
                        if q != tid as int {
                            assert(k.tasks@[q] == k0.tasks@[q]);
                        }
                    }
                }
            }
        },
        None => {},
    }
}

/// The running task blocks and the task with the least pass runs, if any.
pub fn block_current_and_run_next(k: &mut Kernel) -> (switched: bool)
    requires
        old(k).wf(),
        no_overflow(old(k).manager.ready@),
    ensures
        final(k).wf(),
        switched == (old(k).manager.ready@.len() > 0),
        final(k).tasks@[old(k).current as int] is Some,
        final(k).tasks@[old(k).current as int]->0.task_status == TaskStatus::Blocked,
        !switched ==> final(k).current == old(k).current,
        switched ==> final(k).current == old(k).manager.ready@[pick(old(k).manager.ready@)].pid,
{
    let ghost k0 = *k;
    let cur = k.current;
    let mut t = k.take_current();
    t.task_status = TaskStatus::Blocked;
    k.put_current(t);
    proof {
        assert forall|j: int|
            0 <= j < k.tasks@.len() implies (#[trigger] k.tasks@[j] matches Some(t) ==> {
                &&& t.pid == j
                &&& t.wf()
                &&& frames_below(t.memory_set@, k.nframes as int)
            }) by {
            if j != cur as int {
                assert(k.tasks@[j] == k0.tasks@[j]);
            }
        }
        assert forall|j: int| 0 <= j < k.manager.ready@.len() implies {
            &&& (#[trigger] k.manager.ready@[j]).pid < k.tasks@.len()
            &&& k.tasks@[k.manager.ready@[j].pid as int] matches Some(t) && t.task_status
                == TaskStatus::Ready
        } by {
            let q = k.manager.ready@[j].pid as int;
            assert(q != cur as int);
            assert(k.tasks@[q] == k0.tasks@[q]);
        }
        if k.manager.ready@.len() > 0 {
            crate::sched::lemma_pick_exists(k.manager.ready@);
        }
    }
    let ghost k1 = *k;
    let switched = run_next(k);
    proof {
        if switched {
            let e = bump(k1.manager.ready@[pick(k1.manager.ready@)]);
            assert(e.pid != cur);
        }
    }
    switched
}

proof fn lemma_sync_update_mutex(s0: SyncTable, s: SyncTable, id: usize)
    requires
        s0.wf(),
        id < s0.mutexes@.len(),
        s.mutexes@.len() == s0.mutexes@.len(),
        s.mutexes@[id as int].inv(),
        forall|i: int| 0 <= i < s.mutexes@.len() && i != id ==> s.mutexes@[i] == s0.mutexes@[i],
        s.semaphores == s0.semaphores,
    ensures
        s.wf(),
{
    assert forall|i: int| 0 <= i < s.mutexes@.len() implies (#[trigger] s.mutexes@[i]).inv() by {
        if i != id {
            assert(s.mutexes@[i] == s0.mutexes@[i]);
        }
    }
}

proof fn lemma_sync_update_sem(s0: SyncTable, s: SyncTable, id: usize)
    requires
        s0.wf(),
        id < s0.semaphores@.len(),
        s.semaphores@.len() == s0.semaphores@.len(),
        s.semaphores@[id as int].wf(),
        forall|i: int| 0 <= i < s.semaphores@.len() && i != id ==> s.semaphores@[i] == s0.semaphores@[i],
        s.mutexes == s0.mutexes,
    ensures
        s.wf(),
{
    assert forall|i: int| 0 <= i < s.semaphores@.len() implies (#[trigger] s.semaphores@[i]).wf() by {
        if i != id {
            assert(s.semaphores@[i] == s0.semaphores@[i]);
        }
    }
}

/// Creates an unlocked blocking mutex and returns its handle, or -1 when
/// handles are exhausted.
pub fn sys_mutex_create(s: &mut SyncTable) -> (r: isize)
    requires
        old(s).wf(),
    ensures
        final(s).wf(),
        old(s).mutexes@.len() < isize::MAX ==> {
            &&& r == old(s).mutexes@.len()
            &&& final(s).mutexes@.len() == old(s).mutexes@.len() + 1
            &&& final(s).mutexes@[r as int].state() == crate::mutex::mutex_free()
        },
        old(s).mutexes@.len() >= isize::MAX ==> r == -1,
{
    if s.mutexes.len() >= isize::MAX as usize {
        return -1;
    }
    let id = s.mutexes.len();
    s.mutexes.push(MutexBlocking::new());
    assert forall|i: int| 0 <= i < s.mutexes@.len() implies (#[trigger] s.mutexes@[i]).inv() by {
        if i < id {
            assert(s.mutexes@[i] == old(s).mutexes@[i]);
        }
    }
    id as isize
}

/// The running task locks mutex `id`: it takes a free lock, or queues and
/// blocks on a held one (it then resumes holding the lock, handed over by
/// `unlock`). Returns 0, or -1 with nothing changed for an unknown handle.
pub fn sys_mutex_lock(k: &mut Kernel, s: &mut SyncTable, id: usize) -> (r: isize)
    requires
        old(k).wf(),
        old(s).wf(),
        no_overflow(old(k).manager.ready@),
    ensures
        final(k).wf(),
        final(s).wf(),
        id >= old(s).mutexes@.len() ==> r == -1 && *final(k) == *old(k) && *final(s) == *old(s),
        id < old(s).mutexes@.len() ==> {
            let m0 = old(s).mutexes@[id as int].state();
            &&& r == 0
            &&& final(s).mutexes@[id as int].state() == mutex_lock(m0, old(k).current, true)
            &&& m0.holder is Some ==> final(k).tasks@[old(k).current as int]->0.task_status
                == TaskStatus::Blocked
            &&& m0.holder is None ==> *final(k) == *old(k)
        },
{
    if id >= s.mutexes.len() {
        return -1;
    }
    let ghost s0 = *s;
    let tid = k.current;
    let acquired = s.mutexes[id].lock(tid);
    proof {
        lemma_sync_update_mutex(s0, *s, id);
    }
    if !acquired {
        block_current_and_run_next(k);
    }
    0
}

/// The holder unlocks mutex `id`; the oldest waiter, if any, receives the
/// lock and becomes ready. Returns 0, or -1 with nothing changed for an
/// unknown handle. Unlocking a free mutex is a program error and is ruled
/// out by the precondition.
pub fn sys_mutex_unlock(k: &mut Kernel, s: &mut SyncTable, id: usize) -> (r: isize)
    requires
        old(k).wf(),
        old(s).wf(),
        id < old(s).mutexes@.len() ==> old(s).mutexes@[id as int].state().holder is Some,
    ensures
        final(k).wf(),
        final(s).wf(),
        id >= old(s).mutexes@.len() ==> r == -1 && *final(k) == *old(k) && *final(s) == *old(s),
        id < old(s).mutexes@.len() ==> {
            let m0 = old(s).mutexes@[id as int].state();
            &&& r == 0
            &&& final(s).mutexes@[id as int].state() == mutex_unlock(m0)
            &&& (mutex_unlock_woken(m0) matches Some(w) && wakeable(*old(k), w)) ==> final(k).tasks@[mutex_unlock_woken(m0)->0 as int]->0.task_status == TaskStatus::Ready
        },
{
    if id >= s.mutexes.len() {
        return -1;
    }
    let ghost s0 = *s;
    let woken = s.mutexes[id].unlock();
    proof {
        lemma_sync_update_mutex(s0, *s, id);
    }
    match woken {
        Some(w) => wakeup_task(k, w),
        None => {},
    }
    0
}

/// Creates a semaphore with `count` units and returns its handle, or -1 when
/// `count` is too large or handles are exhausted.
pub fn sys_semaphore_create(s: &mut SyncTable, count: usize) -> (r: isize)
    requires
        old(s).wf(),
    ensures
        final(s).wf(),
        (count <= isize::MAX && old(s).semaphores@.len() < isize::MAX) ==> {
            &&& r == old(s).semaphores@.len()
            &&& final(s).semaphores@.len() == old(s).semaphores@.len() + 1
            &&& final(s).semaphores@[r as int]@ == crate::semaphore::sem_init(count as int)
        },
        !(count <= isize::MAX && old(s).semaphores@.len() < isize::MAX) ==> r == -1,
{
    if count > isize::MAX as usize || s.semaphores.len() >= isize::MAX as usize {
        return -1;
    }
    let id = s.semaphores.len();
    s.semaphores.push(Semaphore::new(count));
    assert forall|i: int| 0 <= i < s.semaphores@.len() implies (#[trigger] s.semaphores@[i]).wf() by {
        if i < id {
            assert(s.semaphores@[i] == old(s).semaphores@[i]);
        }
    }
    id as isize
}

/// The running task releases a unit of semaphore `id`; the oldest waiter,
/// if one is owed a unit, receives it and becomes ready. Returns 0, or -1
/// with nothing changed for an unknown handle or a count at its maximum.
pub fn sys_semaphore_up(k: &mut Kernel, s: &mut SyncTable, id: usize) -> (r: isize)
    requires
        old(k).wf(),
        old(s).wf(),
    ensures
        final(k).wf(),
        final(s).wf(),
        (id >= old(s).semaphores@.len() || old(s).semaphores@[id as int].inner.count == isize::MAX)
            ==> r == -1 && *final(k) == *old(k) && *final(s) == *old(s),
        (id < old(s).semaphores@.len() && old(s).semaphores@[id as int].inner.count < isize::MAX)
            ==> {
            let s0 = old(s).semaphores@[id as int]@;
            &&& r == 0
            &&& final(s).semaphores@[id as int]@ == sem_up(s0, old(k).current)
            &&& (sem_up_woken(s0) matches Some(w) && wakeable(*old(k), w)) ==> final(k).tasks@[sem_up_woken(s0)->0 as int]->0.task_status == TaskStatus::Ready
        },
{
    if id >= s.semaphores.len() || s.semaphores[id].inner.count == isize::MAX {
        return -1;
    }
    let ghost s0 = *s;
    let woken = s.semaphores[id].up(k.current);
    proof {
        lemma_sync_update_sem(s0, *s, id);
    }
    match woken {
        Some(w) => wakeup_task(k, w),
        None => {},
    }
    0
}

/// The running task asks semaphore `id` for a unit, blocking when none is
/// left. Returns 0, or -1 with nothing changed for an unknown handle or a
/// count at its minimum.
pub fn sys_semaphore_down(k: &mut Kernel, s: &mut SyncTable, id: usize) -> (r: isize)
    requires
        old(k).wf(),
        old(s).wf(),
        no_overflow(old(k).manager.ready@),
    ensures
        final(k).wf(),
        final(s).wf(),
        (id >= old(s).semaphores@.len() || old(s).semaphores@[id as int].inner.count == isize::MIN)
            ==> r == -1 && *final(k) == *old(k) && *final(s) == *old(s),
        (id < old(s).semaphores@.len() && old(s).semaphores@[id as int].inner.count > isize::MIN)
            ==> {
            let s0 = old(s).semaphores@[id as int]@;
            &&& r == 0
            &&& final(s).semaphores@[id as int]@ == sem_down(s0, old(k).current)
            &&& sem_down_blocks(s0) ==> final(k).tasks@[old(k).current as int]->0.task_status
                == TaskStatus::Blocked
            &&& !sem_down_blocks(s0) ==> *final(k) == *old(k)
        },
{
    if id >= s.semaphores.len() || s.semaphores[id].inner.count == isize::MIN {
        return -1;
    }
    let ghost s0 = *s;
    let acquired = s.semaphores[id].down(k.current);
    proof {
        lemma_sync_update_sem(s0, *s, id);
    }
    if !acquired {
        block_current_and_run_next(k);
    }
    0
}

} // verus!
