//! Mutexes: a spin variant whose waiters yield and retry, and a blocking
//! variant with a FIFO wait queue and direct hand-off on unlock.
use vstd::prelude::*;
use crate::queue::copy_ids;

verus! {

/// Abstract state of a mutex.
pub struct MutexState {
    /// Task holding the lock, if any.
    pub holder: Option<usize>,
    /// Tasks blocked on the lock, oldest first.
    pub queue: Seq<usize>,
}

/// One call on a mutex: `Lock` by the task whose id it carries, or `Unlock`
/// by the holder.
pub enum MutexOp {
    Lock(usize),
    Unlock,
}

/// An unlocked mutex with nobody waiting.
pub open spec fn mutex_free() -> MutexState {
    MutexState { holder: None, queue: Seq::empty() }
}

/// Nobody waits on a free lock.
pub open spec fn mutex_consistent(s: MutexState) -> bool {
    s.holder is None ==> s.queue.len() == 0
}

/// Effect of `lock` by `tid`: a free lock is taken; on a held one the caller
/// queues when `queues` is set (blocking variant) and is turned away otherwise.
pub open spec fn mutex_lock(s: MutexState, tid: usize, queues: bool) -> MutexState {
    if s.holder is None {
        MutexState { holder: Some(tid), queue: s.queue }
    } else if queues {
        MutexState { holder: s.holder, queue: s.queue.push(tid) }
    } else {
        s
    }
}

/// Effect of `unlock`: the oldest waiter becomes the holder, or the lock is
/// freed when nobody waits.
pub open spec fn mutex_unlock(s: MutexState) -> MutexState {
    if s.queue.len() > 0 {
        MutexState { holder: Some(s.queue[0]), queue: s.queue.drop_first() }
    } else {
        MutexState { holder: None, queue: s.queue }
    }
}

/// Task handed the lock by `unlock`.
pub open spec fn mutex_unlock_woken(s: MutexState) -> Option<usize> {
    if s.queue.len() > 0 {
        Some(s.queue[0])
    } else {
        None
    }
}

/// State of a blocking mutex after `ops`, starting free.
pub open spec fn mutex_run(ops: Seq<MutexOp>) -> MutexState
    decreases ops.len(),
{
    if ops.len() == 0 {
        mutex_free()
    } else {
        let s = mutex_run(ops.drop_last());
        match ops.last() {
            MutexOp::Lock(tid) => mutex_lock(s, tid, true),
            MutexOp::Unlock => mutex_unlock(s),
        }
    }
}

/// Tasks that obtained the lock during `ops`, in order: by a `lock` that
/// found it free, or by hand-off in `unlock`.
pub open spec fn mutex_acquisitions(ops: Seq<MutexOp>) -> Seq<usize>
    decreases ops.len(),
{
    if ops.len() == 0 {
        Seq::empty()
    } else {
        let s = mutex_run(ops.drop_last());
        let log = mutex_acquisitions(ops.drop_last());
        match ops.last() {
            MutexOp::Lock(tid) => if s.holder is None {
                log.push(tid)
            } else {
                log
            },
            MutexOp::Unlock => if s.queue.len() > 0 {
                log.push(s.queue[0])
            } else {
                log
            },
        }
    }
}

/// Calls a correct program can make: `unlock` only while the lock is held,
/// and `lock` only by a task that neither holds the lock nor waits on it
/// (a blocked task makes no calls).
pub open spec fn mutex_ops_valid(ops: Seq<MutexOp>) -> bool
    decreases ops.len(),
{
    if ops.len() == 0 {
        true
    } else {
        let s = mutex_run(ops.drop_last());
        &&& mutex_ops_valid(ops.drop_last())
        &&& match ops.last() {
            MutexOp::Lock(tid) => s.holder != Some(tid) && !s.queue.contains(tid),
            MutexOp::Unlock => s.holder is Some,
        }
    }
}

/// Mutual exclusion: along any valid sequence of calls, at most one task
/// holds the lock (the holder never also waits, and no task waits twice),
/// and the reported holder is the task that obtained the lock last.
pub proof fn lemma_mutex_exclusion(ops: Seq<MutexOp>)
    requires
        mutex_ops_valid(ops),
    ensures
        mutex_consistent(mutex_run(ops)),
        mutex_run(ops).queue.no_duplicates(),
        mutex_run(ops).holder matches Some(t) ==> !mutex_run(ops).queue.contains(t),
        mutex_run(ops).holder matches Some(t) ==> mutex_acquisitions(ops).len() > 0
            && mutex_acquisitions(ops).last() == t,
    decreases ops.len(),
{
    if ops.len() > 0 {
        let pre = ops.drop_last();
        lemma_mutex_exclusion(pre);
        let s = mutex_run(pre);
        match ops.last() {
            MutexOp::Lock(tid) => {
                if s.holder is Some {
                    assert forall|i: int, j: int|
                        0 <= i < j < s.queue.push(tid).len() implies s.queue.push(tid)[i]
                        != s.queue.push(tid)[j] by {
                        if j == s.queue.len() {
                            assert(s.queue.contains(s.queue[i]));
                        }
                    }
                    let h = s.holder->0;
                    if s.queue.push(tid).contains(h) {
                        let k = choose|k: int| 0 <= k < s.queue.push(tid).len() && s.queue.push(tid)[k] == h;
                        if k < s.queue.len() {
                            assert(s.queue.contains(h));
                        }
                    }
                }
            },
            MutexOp::Unlock => {
                if s.queue.len() > 0 {
                    let q = s.queue;
                    let h = q[0];
                    assert(q.drop_first().no_duplicates()) by {
                        assert forall|i: int, j: int|
                            0 <= i < j < q.drop_first().len() implies q.drop_first()[i]
                            != q.drop_first()[j] by {
                            assert(q.drop_first()[i] == q[i + 1]);
                            assert(q.drop_first()[j] == q[j + 1]);
                        }
                    }
                    if q.drop_first().contains(h) {
                        let k = choose|k: int| 0 <= k < q.drop_first().len() && q.drop_first()[k] == h;
                        assert(q[k + 1] == q[0]);
                    }
                }
            },
        }
    }
}

/// Hand-off follows arrival order: if `a` and then `b` block on a held lock
/// with nobody waiting, the next `unlock` hands the lock to `a` and the one
/// after to `b`.
pub proof fn lemma_mutex_fifo(s: MutexState, a: usize, b: usize)
    requires
        s.holder is Some,
        s.queue.len() == 0,
    ensures
        mutex_unlock_woken(mutex_lock(mutex_lock(s, a, true), b, true)) == Some(a),
        mutex_unlock_woken(mutex_unlock(mutex_lock(mutex_lock(s, a, true), b, true)))
            == Some(b),
{
    let s2 = mutex_lock(mutex_lock(s, a, true), b, true);
    assert(s2.queue =~= seq![a, b]);
    assert(mutex_unlock(s2).queue =~= seq![b]);
}

/// Operations common to both mutex variants. `lock` never suspends the
/// caller itself: it reports whether the lock was obtained, and the caller
/// then blocks (blocking variant) or yields and retries (spin variant).
pub trait Mutex {
    /// Abstract state of the lock.
    spec fn state(&self) -> MutexState;

    /// Whether a contended `lock` queues its caller.
    spec fn queues_waiters(&self) -> bool;

    /// Internal invariant.
    spec fn inv(&self) -> bool;

    /// Task `tid` tries to take the lock; `true` when it now holds it.
    fn lock(&mut self, tid: usize) -> (acquired: bool)
        requires
            old(self).inv(),
        ensures
            final(self).inv(),
            final(self).queues_waiters() == old(self).queues_waiters(),
            final(self).state() == mutex_lock(old(self).state(), tid, old(self).queues_waiters()),
            acquired == (old(self).state().holder is None),
    ;

    /// The holder releases the lock; returns the waiter it was handed to, if any.
    fn unlock(&mut self) -> (woken: Option<usize>)
        requires
            old(self).inv(),
            old(self).state().holder is Some,
        ensures
            final(self).inv(),
            final(self).queues_waiters() == old(self).queues_waiters(),
            final(self).state() == mutex_unlock(old(self).state()),
            woken == mutex_unlock_woken(old(self).state()),
    ;

    /// 1 when the lock is free, 0 when it is held.
    fn stat(&self) -> (r: isize)
        requires
            self.inv(),
        ensures
            r == if self.state().holder is None { 1isize } else { 0isize },
    ;

    /// The holder, as a one-element list, or `None` when the lock is free.
    fn get_allocation(&self) -> (r: Option<Vec<usize>>)
        requires
            self.inv(),
        ensures
            self.state().holder is None ==> r is None,
            self.state().holder matches Some(t) ==> (r matches Some(v) && v@ == seq![t]),
    ;

    /// Tasks waiting for the lock, oldest first, or `None` when none waits.
    fn get_need(&self) -> (r: Option<Vec<usize>>)
        requires
            self.inv(),
        ensures
            self.state().queue.len() == 0 ==> r is None,
            self.state().queue.len() > 0 ==> (r matches Some(v) && v@ == self.state().queue),
    ;
}

/// Mutex whose contenders yield the processor and retry.
pub struct MutexSpin {
    pub allocate_tid: usize,
    pub locked: bool,
}

impl MutexSpin {
    /// Creates an unlocked spin mutex.
    pub fn new() -> (r: Self)
        ensures
            r.inv(),
            r.state() == mutex_free(),
            !r.queues_waiters(),
    {
        MutexSpin { allocate_tid: 0, locked: false }
    }
}

impl Mutex for MutexSpin {
    open spec fn state(&self) -> MutexState {
        MutexState {
            holder: if self.locked { Some(self.allocate_tid) } else { None },
            queue: Seq::empty(),
        }
    }

    open spec fn queues_waiters(&self) -> bool {
        false
    }

    open spec fn inv(&self) -> bool {
        true
    }

    fn lock(&mut self, tid: usize) -> (acquired: bool) {
        if self.locked {
            false
        } else {
            self.locked = true;
            self.allocate_tid = tid;
            true
        }
    }

    fn unlock(&mut self) -> (woken: Option<usize>) {
        self.locked = false;
        None
    }

    fn stat(&self) -> (r: isize) {
        if self.locked {
            0
        } else {
            1
        }
    }

    fn get_allocation(&self) -> (r: Option<Vec<usize>>) {
        if self.locked {
            Some(vec![self.allocate_tid])
        } else {
            None
        }
    }

    fn get_need(&self) -> (r: Option<Vec<usize>>) {
        None
    }
}

/// Mutable part of a blocking mutex.
pub struct MutexBlockingInner {
    pub locked: bool,
    pub allocate_tid: usize,
    pub wait_queue: Vec<usize>,
}

/// Mutex whose contenders block in a FIFO queue; `unlock` hands the lock
/// straight to the oldest waiter without freeing it in between.
pub struct MutexBlocking {
    pub inner: MutexBlockingInner,
}

impl MutexBlocking {
    /// Creates an unlocked blocking mutex.
    pub fn new() -> (r: Self)
        ensures
            r.inv(),
            r.state() == mutex_free(),
            r.queues_waiters(),
    {
        MutexBlocking {
            inner: MutexBlockingInner { locked: false, allocate_tid: 0, wait_queue: Vec::new() },
        }
    }
}

impl Mutex for MutexBlocking {
    open spec fn state(&self) -> MutexState {
        MutexState {
            holder: if self.inner.locked { Some(self.inner.allocate_tid) } else { None },
            queue: self.inner.wait_queue@,
        }
    }

    open spec fn queues_waiters(&self) -> bool {
        true
    }

    open spec fn inv(&self) -> bool {
        !self.inner.locked ==> self.inner.wait_queue@.len() == 0
    }

    fn lock(&mut self, tid: usize) -> (acquired: bool) {
        if self.inner.locked {
            self.inner.wait_queue.push(tid);
            false
        } else {
            self.inner.allocate_tid = tid;
            self.inner.locked = true;
            true
        }
    }

    fn unlock(&mut self) -> (woken: Option<usize>) {
        if self.inner.wait_queue.len() > 0 {
            let next = self.inner.wait_queue.remove(0);
            self.inner.allocate_tid = next;
            Some(next)
        } else {
            self.inner.locked = false;
            None
        }
    }

    fn stat(&self) -> (r: isize) {
        if self.inner.locked {
            0
        } else {
            1
        }
    }

    fn get_allocation(&self) -> (r: Option<Vec<usize>>) {
        if self.inner.locked {
            Some(vec![self.inner.allocate_tid])
        } else {
            None
        }
    }

    fn get_need(&self) -> (r: Option<Vec<usize>>) {
        if self.inner.locked && self.inner.wait_queue.len() > 0 {
            Some(copy_ids(&self.inner.wait_queue))
        } else {
            None
        }
    }
}

} // verus!
