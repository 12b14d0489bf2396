//! Counting semaphore with holder tracking and a FIFO wait queue.
//!
//! The kernel serializes every call on one core, so the operations take
//! `&mut self`; blocking and waking are reported to the caller, which then
//! suspends the calling task or makes the woken task ready.
use vstd::prelude::*;
use crate::queue::{copy_ids, remove_first, remove_first_occurrence};

verus! {

/// Abstract state of a semaphore.
pub struct SemState {
    /// Units left; negative values count the blocked waiters.
    pub count: int,
    /// Task ids holding a unit, in the order they obtained it.
    pub holders: Seq<usize>,
    /// Task ids blocked in `down`, oldest first.
    pub queue: Seq<usize>,
}

/// One call on a semaphore, made by the task whose id it carries.
pub enum SemOp {
    Up(usize),
    Down(usize),
}

/// A fresh semaphore with `n` units.
pub open spec fn sem_init(n: int) -> SemState {
    SemState { count: n, holders: Seq::empty(), queue: Seq::empty() }
}

/// The count and the wait queue agree: the queue is empty unless the count
/// is negative, and then it holds exactly `-count` waiters.
pub open spec fn sem_consistent(s: SemState) -> bool {
    &&& (s.count < 0 <==> s.queue.len() > 0)
    &&& (s.count < 0 ==> s.queue.len() == -s.count)
}

/// Effect of `up` by task `tid`: it gives back its unit; if someone was
/// waiting, the oldest waiter receives a unit and is woken.
pub open spec fn sem_up(s: SemState, tid: usize) -> SemState {
    let h = remove_first(s.holders, tid);
    let c = s.count + 1;
    if c <= 0 && s.queue.len() > 0 {
        SemState { count: c, holders: h.push(s.queue[0]), queue: s.queue.drop_first() }
    } else {
        SemState { count: c, holders: h, queue: s.queue }
    }
}

/// Task woken by `up` on state `s`.
pub open spec fn sem_up_woken(s: SemState) -> Option<usize> {
    if s.count + 1 <= 0 && s.queue.len() > 0 {
        Some(s.queue[0])
    } else {
        None
    }
}

/// Effect of `down` by task `tid`: it takes a unit, or queues when none is left.
pub open spec fn sem_down(s: SemState, tid: usize) -> SemState {
    let c = s.count - 1;
    if c < 0 {
        SemState { count: c, holders: s.holders, queue: s.queue.push(tid) }
    } else {
        SemState { count: c, holders: s.holders.push(tid), queue: s.queue }
    }
}

/// Whether `down` on state `s` blocks the caller.
pub open spec fn sem_down_blocks(s: SemState) -> bool {
    s.count - 1 < 0
}

/// State after running `ops` from `s`.
pub open spec fn sem_run(s: SemState, ops: Seq<SemOp>) -> SemState
    decreases ops.len(),
{
    if ops.len() == 0 {
        s
    } else {
        let t = sem_run(s, ops.drop_last());
        match ops.last() {
            SemOp::Up(tid) => sem_up(t, tid),
            SemOp::Down(tid) => sem_down(t, tid),
        }
    }
}

/// Number of `up` calls in `ops`.
pub open spec fn count_ups(ops: Seq<SemOp>) -> int
    decreases ops.len(),
{
    if ops.len() == 0 {
        0
    } else {
        count_ups(ops.drop_last()) + if ops.last() is Up { 1int } else { 0int }
    }
}

/// Number of `down` calls in `ops`.
pub open spec fn count_downs(ops: Seq<SemOp>) -> int
    decreases ops.len(),
{
    if ops.len() == 0 {
        0
    } else {
        count_downs(ops.drop_last()) + if ops.last() is Down { 1int } else { 0int }
    }
}

/// Number of `down` calls in `ops`, run from `s`, that blocked their caller.
pub open spec fn count_blocked_downs(s: SemState, ops: Seq<SemOp>) -> int
    decreases ops.len(),
{
    if ops.len() == 0 {
        0
    } else {
        let t = sem_run(s, ops.drop_last());
        count_blocked_downs(s, ops.drop_last()) + if ops.last() is Down && sem_down_blocks(t) {
            1int
        } else {
            0int
        }
    }
}

/// Every sequence of calls from a fresh semaphore with `n` units leaves
/// `count == n - downs + ups`, and keeps the count and the wait queue in
/// agreement: the count is negative exactly when tasks wait, and then its
/// magnitude is the number of waiters. When no `down` blocked, the count is
/// `n` minus the `down` calls that did not block, plus the `up` calls.
pub proof fn lemma_semaphore_count(n: nat, ops: Seq<SemOp>)
    ensures
        sem_run(sem_init(n as int), ops).count == n - count_downs(ops) + count_ups(ops),
        sem_consistent(sem_run(sem_init(n as int), ops)),
        count_blocked_downs(sem_init(n as int), ops) == 0 ==> sem_run(
            sem_init(n as int),
            ops,
        ).count == n - (count_downs(ops) - count_blocked_downs(sem_init(n as int), ops))
            + count_ups(ops),
    decreases ops.len(),
{
    if ops.len() > 0 {
        lemma_semaphore_count(n, ops.drop_last());
        lemma_blocked_downs_nonneg(sem_init(n as int), ops.drop_last());
    }
}

proof fn lemma_blocked_downs_nonneg(s: SemState, ops: Seq<SemOp>)
    ensures
        count_blocked_downs(s, ops) >= 0,
    decreases ops.len(),
{
    if ops.len() > 0 {
        lemma_blocked_downs_nonneg(s, ops.drop_last());
    }
}

/// Waiters are woken in the order they blocked: on a semaphore with no unit
/// left and nobody waiting, if `a` and then `b` call `down`, both block, and
/// the next two `up` calls wake `a` and then `b`.
pub proof fn lemma_semaphore_fifo(s: SemState, a: usize, b: usize, u1: usize, u2: usize)
    requires
        sem_consistent(s),
        s.count == 0,
    ensures
        sem_down_blocks(s),
        sem_down_blocks(sem_down(s, a)),
        sem_up_woken(sem_down(sem_down(s, a), b)) == Some(a),
        sem_up_woken(sem_up(sem_down(sem_down(s, a), b), u1)) == Some(b),
{
    let s2 = sem_down(sem_down(s, a), b);
    assert(s2.queue =~= seq![a, b]);
    assert(sem_up(s2, u1).queue =~= seq![b]);
}

/// Mutable part of a semaphore.
pub struct SemaphoreInner {
    pub count: isize,
    pub allocate_tid: Vec<usize>,
    pub wait_queue: Vec<usize>,
}

/// A counting semaphore.
pub struct Semaphore {
    pub inner: SemaphoreInner,
}

impl View for Semaphore {
    type V = SemState;

    open spec fn view(&self) -> SemState {
        SemState {
            count: self.inner.count as int,
            holders: self.inner.allocate_tid@,
            queue: self.inner.wait_queue@,
        }
    }
}

impl Semaphore {
    /// Well-formed: count and wait queue agree.
    pub open spec fn wf(&self) -> bool {
        sem_consistent(self@)
    }

    /// Creates a semaphore holding `res_count` units.
    pub fn new(res_count: usize) -> (r: Self)
        requires
            res_count <= isize::MAX,
        ensures
            r.wf(),
            r@ == sem_init(res_count as int),
    {
        Semaphore {
            inner: SemaphoreInner {
                count: res_count as isize,
                allocate_tid: Vec::new(),
                wait_queue: Vec::new(),
            },
        }
    }

    /// Task `tid` releases a unit. Returns the task that must be woken, if any;
    /// that task now holds a unit.
    pub fn up(&mut self, tid: usize) -> (woken: Option<usize>)
        requires
            old(self).wf(),
            old(self).inner.count < isize::MAX,
        ensures
            final(self).wf(),
            final(self)@ == sem_up(old(self)@, tid),
            woken == sem_up_woken(old(self)@),
    {
        remove_first_occurrence(&mut self.inner.allocate_tid, tid);
        self.inner.count = self.inner.count + 1;
        if self.inner.count <= 0 && self.inner.wait_queue.len() > 0 {
            let task = self.inner.wait_queue.remove(0);
            self.inner.allocate_tid.push(task);
            Some(task)
        } else {
            None
        }
    }

    /// Task `tid` asks for a unit. Returns `true` when it got one, `false`
    /// when it was queued and must now block.
    pub fn down(&mut self, tid: usize) -> (acquired: bool)
        requires
            old(self).wf(),
            old(self).inner.count > isize::MIN,
        ensures
            final(self).wf(),
            final(self)@ == sem_down(old(self)@, tid),
            acquired == !sem_down_blocks(old(self)@),
    {
        self.inner.count = self.inner.count - 1;
        if self.inner.count < 0 {
            self.inner.wait_queue.push(tid);
            false
        } else {
            self.inner.allocate_tid.push(tid);
            true
        }
    }

    /// Units available now (zero while tasks are waiting).
    pub fn stat(&self) -> (r: isize)
        ensures
            r as int == if self@.count < 0 { 0 } else { self@.count },
    {
        if self.inner.count < 0 {
            0
        } else {
            self.inner.count
        }
    }

    /// Tasks holding a unit, or `None` when nobody holds one.
    pub fn get_allocation(&self) -> (r: Option<Vec<usize>>)
        ensures
            self@.holders.len() == 0 ==> r is None,
            self@.holders.len() > 0 ==> (r matches Some(v) && v@ == self@.holders),
    {
        if self.inner.allocate_tid.len() > 0 {
            Some(copy_ids(&self.inner.allocate_tid))
        } else {
            None
        }
    }

    /// Tasks blocked on this semaphore, oldest first, or `None` when none is.
    pub fn get_need(&self) -> (r: Option<Vec<usize>>)
        ensures
            self@.queue.len() == 0 ==> r is None,
            self@.queue.len() > 0 ==> (r matches Some(v) && v@ == self@.queue),
    {
        if self.inner.wait_queue.len() == 0 {
            None
        } else {
            Some(copy_ids(&self.inner.wait_queue))
        }
    }
}

} // verus!
