//! Stride scheduler: the ready task with the least pass runs next, and its
//! pass then grows by its stride.
use vstd::prelude::*;
use crate::config::BIG_STRIDE;

verus! {

/// Scheduling fields of a ready task.
#[derive(Clone, Copy, PartialEq, Eq, Structural, Debug)]
pub struct SchedEntry {
    pub pid: usize,
    pub pass: u64,
    pub stride: u64,
}

/// Whether entry `i` comes first: least pass, ties to the lowest task id.
pub open spec fn is_pick(e: Seq<SchedEntry>, i: int) -> bool {
    &&& 0 <= i < e.len()
    &&& forall|j: int|
        0 <= j < e.len() ==> e[i].pass < (#[trigger] e[j]).pass || (e[i].pass == e[j].pass
            && e[i].pid <= e[j].pid)
}

/// Task ids in the pool are distinct.
pub open spec fn pids_distinct(e: Seq<SchedEntry>) -> bool {
    forall|i: int, j: int|
        0 <= i < e.len() && 0 <= j < e.len() && i != j ==> (#[trigger] e[i]).pid != (#[trigger] e[j]).pid
}

/// Index of the entry that runs next.
pub open spec fn pick(e: Seq<SchedEntry>) -> int {
    choose|i: int| is_pick(e, i)
}

/// `s` after running once: pass grown by stride.
pub open spec fn bump(s: SchedEntry) -> SchedEntry {
    SchedEntry { pid: s.pid, pass: (s.pass + s.stride) as u64, stride: s.stride }
}

/// No pass overflows when its stride is added.
pub open spec fn no_overflow(e: Seq<SchedEntry>) -> bool {
    forall|i: int| 0 <= i < e.len() ==> (#[trigger] e[i]).pass + e[i].stride <= u64::MAX
}

/// A pick exists in every non-empty pool, and with distinct ids it is unique.
pub proof fn lemma_pick_exists(e: Seq<SchedEntry>)
    requires
        e.len() > 0,
        pids_distinct(e),
    ensures
        is_pick(e, pick(e)),
        forall|i: int| is_pick(e, i) ==> i == pick(e),
    decreases e.len(),
{
    let w = lemma_min_index(e, e.len() as int);
    assert(is_pick(e, w));
    assert forall|i: int| is_pick(e, i) implies i == pick(e) by {
        let k = pick(e);
        if i != k {
            assert(e[i].pass <= e[k].pass);
            assert(e[k].pass <= e[i].pass);
        }
    }
}

proof fn lemma_min_index(e: Seq<SchedEntry>, n: int) -> (w: int)
    requires
        0 < n <= e.len(),
    ensures
        0 <= w < n,
        forall|j: int|
            0 <= j < n ==> e[w].pass < (#[trigger] e[j]).pass || (e[w].pass == e[j].pass && e[w].pid
                <= e[j].pid),
    decreases n,
{
    if n == 1 {
        0
    } else {
        let w0 = lemma_min_index(e, n - 1);
        let l = n - 1;
        if e[l].pass < e[w0].pass || (e[l].pass == e[w0].pass && e[l].pid < e[w0].pid) {
            l
        } else {
            w0
        }
    }
}

/// The pool of ready tasks.
pub struct TaskManager {
    pub ready: Vec<SchedEntry>,
}

impl TaskManager {
    /// An empty pool.
    pub fn new() -> (r: Self)
        ensures
            r.ready@.len() == 0,
    {
        TaskManager { ready: Vec::new() }
    }

    /// Puts a task (back) into the pool with its pass unchanged.
    pub fn add(&mut self, s: SchedEntry)
        ensures
            final(self).ready@ == old(self).ready@.push(s),
    {
        self.ready.push(s);
    }

    /// Takes out the task that runs next (least pass, ties to the lowest id)
    /// and returns it with its pass grown by its stride; `None` on an empty pool.
    pub fn fetch(&mut self) -> (r: Option<SchedEntry>)
        requires
            pids_distinct(old(self).ready@),
            no_overflow(old(self).ready@),
        ensures
            old(self).ready@.len() == 0 ==> r is None && final(self).ready@ == old(self).ready@,
            old(self).ready@.len() > 0 ==> r == Some(bump(old(self).ready@[pick(old(self).ready@)]))
                && final(self).ready@ == old(self).ready@.remove(pick(old(self).ready@)),
    {
        let n = self.ready.len();
        if n == 0 {
            return None;
        }
        let mut best: usize = 0;
        let mut i: usize = 1;
        while i < n
            invariant
                n == self.ready@.len(),
                1 <= i <= n,
                best < i,
                forall|j: int|
                    0 <= j < i ==> self.ready@[best as int].pass < (#[trigger] self.ready@[j]).pass
                        || (self.ready@[best as int].pass == self.ready@[j].pass
                        && self.ready@[best as int].pid <= self.ready@[j].pid),
            decreases n - i,
        {
            let c = self.ready[i];
            let b = self.ready[best];
            if c.pass < b.pass || (c.pass == b.pass && c.pid < b.pid) {
                best = i;
            }
            i = i + 1;
        }
        proof {
            lemma_pick_exists(self.ready@);
        }
        let s = self.ready.remove(best);
        Some(SchedEntry { pid: s.pid, pass: s.pass + s.stride, stride: s.stride })
    }
}

/// The pool after one dispatch in which the chosen task runs and yields
/// straight back into the pool.
pub open spec fn round(e: Seq<SchedEntry>) -> Seq<SchedEntry> {
    e.remove(pick(e)).push(bump(e[pick(e)]))
}

/// Pool after `n` rounds.
pub open spec fn rounds(e: Seq<SchedEntry>, n: nat) -> Seq<SchedEntry>
    decreases n,
{
    if n == 0 {
        e
    } else {
        round(rounds(e, (n - 1) as nat))
    }
}

/// How many of the first `n` rounds ran task `pid`.
pub open spec fn runs_of(e: Seq<SchedEntry>, n: nat, pid: usize) -> nat
    decreases n,
{
    if n == 0 {
        0
    } else {
        let t = rounds(e, (n - 1) as nat);
        runs_of(e, (n - 1) as nat, pid) + if t[pick(t)].pid == pid { 1nat } else { 0nat }
    }
}

/// Entry of task `pid` in a pool of two.
pub open spec fn entry_of(e: Seq<SchedEntry>, pid: usize) -> SchedEntry {
    if e[0].pid == pid {
        e[0]
    } else {
        e[1]
    }
}

#[verifier::rlimit(50)]
proof fn lemma_two_tasks(a: SchedEntry, b: SchedEntry, n: nat)
    requires
        a.pid != b.pid,
        a.stride >= 2 * b.stride,
        b.stride > 0,
        a.pass == a.stride,
        b.pass == b.stride,
        (n + 2) * a.stride <= u64::MAX,
        (2 * n + 2) * b.stride <= u64::MAX,
    ensures
        ({
            let e = rounds(seq![a, b], n);
            let ra = runs_of(seq![a, b], n, a.pid) as int;
            let rb = runs_of(seq![a, b], n, b.pid) as int;
            &&& e.len() == 2
            &&& pids_distinct(e)
            &&& (e[0].pid == a.pid || e[0].pid == b.pid)
            &&& (e[1].pid == a.pid || e[1].pid == b.pid)
            &&& entry_of(e, a.pid).stride == a.stride
            &&& entry_of(e, b.pid).stride == b.stride
            &&& entry_of(e, a.pid).pid == a.pid
            &&& entry_of(e, b.pid).pid == b.pid
            &&& entry_of(e, a.pid).pass == a.stride * (1 + ra)
            &&& entry_of(e, b.pid).pass == b.stride * (1 + rb)
            &&& entry_of(e, a.pid).pass <= entry_of(e, b.pid).pass + a.stride
            &&& entry_of(e, b.pid).pass <= entry_of(e, a.pid).pass + a.stride
            &&& ra + rb == n
        }),
    decreases n,
{
    let s0 = seq![a, b];
    if n == 0 {
        assert(pids_distinct(s0));
        assert(rounds(s0, 0) == s0);
        assert(runs_of(s0, 0, a.pid) == 0 && runs_of(s0, 0, b.pid) == 0);
        assert(entry_of(s0, a.pid) == a);
        assert(entry_of(s0, b.pid) == b);
        assert(a.stride * (1 + 0int) == a.stride);
        assert(b.stride * (1 + 0int) == b.stride);
    } else {
        let m = (n - 1) as nat;
        assert((m + 2) * a.stride <= (n + 2) * a.stride) by (nonlinear_arith)
            requires m + 1 == n, a.stride >= 0;
        assert((2 * m + 2) * b.stride <= (2 * n + 2) * b.stride) by (nonlinear_arith)
            requires m + 1 == n, b.stride >= 0;
        lemma_two_tasks(a, b, m);
        let t = rounds(s0, m);
        let ra = runs_of(s0, m, a.pid) as int;
        let rb = runs_of(s0, m, b.pid) as int;
        lemma_pick_exists(t);
        let k = pick(t);
        let ea = entry_of(t, a.pid);
        let eb = entry_of(t, b.pid);
        assert(ra <= m && rb <= m);
        // Passes stay within bounds, so growing one does not overflow.
        assert(ea.pass + ea.stride <= u64::MAX) by {
            assert(a.stride * (1 + ra) + a.stride == a.stride * (ra + 2)) by (nonlinear_arith);
            assert(a.stride * (ra + 2) <= a.stride * (m + 2)) by (nonlinear_arith)
                requires ra <= m, a.stride >= 0;
            assert(a.stride * (m + 2) == (m + 2) * a.stride) by (nonlinear_arith);
        }
        assert(eb.pass + eb.stride <= u64::MAX) by {
            assert(b.stride * (1 + rb) + b.stride == b.stride * (rb + 2)) by (nonlinear_arith);
            assert(b.stride * (rb + 2) <= b.stride * (2 * m + 2)) by (nonlinear_arith)
                requires rb <= m, b.stride >= 0;
            assert(b.stride * (2 * m + 2) == (2 * m + 2) * b.stride) by (nonlinear_arith);
        }
        let e = round(t);
        assert(e == t.remove(k).push(bump(t[k])));
        assert(rounds(s0, n) == e);
        assert(runs_of(s0, n, a.pid) == runs_of(s0, m, a.pid) + if t[k].pid == a.pid { 1nat } else { 0nat });
        assert(runs_of(s0, n, b.pid) == runs_of(s0, m, b.pid) + if t[k].pid == b.pid { 1nat } else { 0nat });
        assert(e.len() == 2);
        assert(e[1] == bump(t[k]));
        assert(e[0] == t[1 - k]);
        assert(0 <= k < 2);
        if t[k].pid == a.pid {
            assert(t[k] == ea);
            assert(ea.pass <= eb.pass);
            assert(entry_of(e, a.pid) == bump(ea));
            assert(entry_of(e, b.pid) == eb);
            assert(a.stride * (1 + (ra + 1)) == a.stride * (1 + ra) + a.stride) by (nonlinear_arith);
            assert(bump(ea).pass == ea.pass + a.stride);
            assert(runs_of(s0, n, a.pid) == ra + 1);
            assert(entry_of(e, a.pid).pass == a.stride * (1 + (ra + 1)));
        } else {
            assert(t[k] == eb);
            assert(eb.pass <= ea.pass);
            assert(entry_of(e, b.pid) == bump(eb));
            assert(entry_of(e, a.pid) == ea);
            assert(b.stride * (1 + (rb + 1)) == b.stride * (1 + rb) + b.stride) by (nonlinear_arith);
            assert(entry_of(e, a.pid).pass == a.stride * (1 + ra));
            assert(runs_of(s0, n, a.pid) == ra);
        }
    }
}

/// Stride fairness: two perpetually ready tasks, `a` with priority `p` and
/// `b` with priority `2 * p`, both starting from their strides as
/// `set_priority` leaves them. Over the first `n` dispatches `b` runs at
/// least twice as often as `a`, up to one dispatch.
pub proof fn lemma_stride_fairness(a: SchedEntry, b: SchedEntry, p: u64, n: nat)
    requires
        p >= 2,
        2 * p <= BIG_STRIDE,
        a.pid != b.pid,
        a.stride == BIG_STRIDE as int / p as int,
        b.stride == BIG_STRIDE as int / (2 * p),
        a.pass == a.stride,
        b.pass == b.stride,
        (n + 2) * BIG_STRIDE <= u64::MAX,
    ensures
        runs_of(seq![a, b], n, a.pid) + runs_of(seq![a, b], n, b.pid) == n,
        2 * runs_of(seq![a, b], n, a.pid) <= runs_of(seq![a, b], n, b.pid) + 1,
{
    let big = BIG_STRIDE as int;
    let pp = p as int;
    assert(a.stride >= 2 * b.stride) by (nonlinear_arith)
        requires a.stride == big / pp, b.stride == big / (2 * pp), pp >= 2, big >= 0;
    assert(b.stride > 0) by (nonlinear_arith)
        requires b.stride == big / (2 * pp), 2 * pp <= big, pp >= 2;
    assert((n + 2) * a.stride <= (n + 2) * big) by (nonlinear_arith)
        requires a.stride == big / pp, pp >= 2, big >= 0, n >= 0;
    assert((2 * n + 2) * b.stride <= (n + 2) * big) by (nonlinear_arith)
        requires b.stride == big / (2 * pp), pp >= 2, big >= 0, n >= 0;
    lemma_two_tasks(a, b, n);
    let e = rounds(seq![a, b], n);
    let ra = runs_of(seq![a, b], n, a.pid) as int;
    let rb = runs_of(seq![a, b], n, b.pid) as int;
    let sa = a.stride as int;
    let sb = b.stride as int;
    assert(2 * ra <= rb + 1) by (nonlinear_arith)
        requires
            sa * (1 + ra) <= sb * (1 + rb) + sa,
            sa >= 2 * sb,
            sb > 0,
            ra >= 0,
    ;
}

} // verus!
