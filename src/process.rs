//! Kernel state and the process-management syscalls.
use vstd::prelude::*;
use crate::config::{MAX_FRAMES, PAGE_SIZE};
use crate::mm::{
    areas_wf, bounds, covers, exact_match, range_mapped, vpn_mapped, AreaView, MapArea, MapPermission, MemorySet,
    bridge_pieces_ok, lemma_bridge_pieces_fit, range_accessible, translated_byte_buffer, write_pieces,
    write_user_bytes, PhysRange,
};
use crate::encode::{le_bytes, push_le};
use crate::queue::copy_ids;
use crate::sched::{bump, no_overflow, pick, pids_distinct, SchedEntry, TaskManager};
use crate::task::{TaskControlBlock, TaskStatus};

verus! {

/// Every frame used by `areas` is below `n`.
pub open spec fn frames_below(areas: Seq<AreaView>, n: int) -> bool {
    forall|i: int, k: int|
        0 <= i < areas.len() && 0 <= k < areas[i].frames.len() ==> #[trigger] areas[i].frames[k] < n
}

/// The whole kernel: task table (indexed by task id; reaped slots are
/// `None`), the running task, the ready pool, free frames and physical memory.
pub struct Kernel {
    pub tasks: Vec<Option<TaskControlBlock>>,
    pub current: usize,
    pub manager: TaskManager,
    pub free_frames: Vec<usize>,
    pub nframes: usize,
    pub mem: Vec<u8>,
}

impl Kernel {
    /// Internal invariant.
    pub open spec fn wf(&self) -> bool {
        &&& self.current < self.tasks@.len()
        &&& self.tasks@.len() <= isize::MAX
        &&& self.tasks@[self.current as int] is Some
        &&& forall|i: int|
            0 <= i < self.tasks@.len() ==> (#[trigger] self.tasks@[i] matches Some(t) ==> {
                &&& t.pid == i
                &&& t.wf()
                &&& frames_below(t.memory_set@, self.nframes as int)
            })
        &&& forall|j: int| 0 <= j < self.free_frames@.len() ==> #[trigger] self.free_frames@[j] < self.nframes
        &&& self.nframes <= MAX_FRAMES
        &&& self.mem@.len() == self.nframes * PAGE_SIZE
        &&& pids_distinct(self.manager.ready@)
        &&& forall|j: int|
            0 <= j < self.manager.ready@.len() ==> {
                &&& (#[trigger] self.manager.ready@[j]).pid != self.current
                &&& self.manager.ready@[j].pid < self.tasks@.len()
                &&& self.tasks@[self.manager.ready@[j].pid as int] matches Some(t)
                    && t.task_status == TaskStatus::Ready
            }
    }

    /// The running task.
    pub open spec fn cur(&self) -> TaskControlBlock {
        self.tasks@[self.current as int]->0
    }

    /// A kernel with `nframes` zeroed physical frames and one running task,
    /// id 0, with an empty address space.
    pub fn new(nframes: usize) -> (r: Self)
        requires
            nframes <= MAX_FRAMES,
        ensures
            r.wf(),
            r.current == 0,
            r.tasks@.len() == 1,
            r.cur().task_status == TaskStatus::Running,
            r.cur().memory_set@.len() == 0,
            r.free_frames@.len() == nframes,
            r.manager.ready@.len() == 0,
    {
        let mut t = TaskControlBlock::new(0);
        t.task_status = TaskStatus::Running;
        let mut tasks: Vec<Option<TaskControlBlock>> = Vec::new();
        tasks.push(Some(t));
        let mut free_frames: Vec<usize> = Vec::new();
        let mut f: usize = nframes;
        while f > 0
            invariant
                f <= nframes,
                free_frames@.len() == nframes - f,
                forall|j: int| 0 <= j < free_frames@.len() ==> #[trigger] free_frames@[j] < nframes,
            decreases f,
        {
            f = f - 1;
            free_frames.push(f);
        }
        let mem = vec![0u8; nframes * PAGE_SIZE];
        let r = Kernel { tasks, current: 0, manager: TaskManager::new(), free_frames, nframes, mem };
        assert(frames_below(r.cur().memory_set@, nframes as int));
        r
    }

    /// Takes the running task's record out of the table.
    pub(crate) fn take_current(&mut self) -> (t: TaskControlBlock)
        requires
            old(self).current < old(self).tasks@.len(),
            old(self).tasks@[old(self).current as int] is Some,
        ensures
            t == old(self).cur(),
            final(self).tasks@ == old(self).tasks@.update(old(self).current as int, None),
            final(self).current == old(self).current,
            final(self).manager == old(self).manager,
            final(self).free_frames == old(self).free_frames,
            final(self).nframes == old(self).nframes,
            final(self).mem == old(self).mem,
    {
        let mut slot: Option<TaskControlBlock> = None;
        let cur = self.current;
        std::mem::swap(&mut self.tasks[cur], &mut slot);
        match slot {
            Some(t) => t,
            None => {
                proof {
                    assert(false);
                }
                TaskControlBlock::new(cur)
            },
        }
    }

    /// Puts the running task's record back.
    pub(crate) fn put_current(&mut self, t: TaskControlBlock)
        requires
            old(self).current < old(self).tasks@.len(),
        ensures
            final(self).tasks@ == old(self).tasks@.update(old(self).current as int, Some(t)),
            final(self).current == old(self).current,
            final(self).manager == old(self).manager,
            final(self).free_frames == old(self).free_frames,
            final(self).nframes == old(self).nframes,
            final(self).mem == old(self).mem,
    {
        let cur = self.current;
        self.tasks.set(cur, Some(t));
    }
}

/// Id of the running task.
pub fn sys_getpid(k: &Kernel) -> (r: isize)
    requires
        k.wf(),
    ensures
        r == k.current as isize,
        r >= 0,
{
    k.current as isize
}

/// Permissions selected by the low three bits of `port` (read, write,
/// execute), for user access; `None` when a higher bit is set or no low bit is.
pub open spec fn port_perm(port: usize) -> Option<MapPermission> {
    if port >= 8 || port == 0 {
        None
    } else {
        Some(
            MapPermission {
                read: port % 2 == 1,
                write: (port / 2) % 2 == 1,
                execute: (port / 4) % 2 == 1,
                user: true,
            },
        )
    }
}

/// Page just past the bytes `[start, start + len)`.
pub open spec fn end_page(start: int, len: int) -> int {
    if (start + len) % (PAGE_SIZE as int) == 0 {
        (start + len) / (PAGE_SIZE as int)
    } else {
        (start + len) / (PAGE_SIZE as int) + 1
    }
}

/// Whether `mmap(start, len, port)` succeeds on an address space with
/// `areas` and `nfree` free frames.
pub open spec fn mmap_ok(areas: Seq<AreaView>, nfree: int, start: usize, len: usize, port: usize) -> bool {
    &&& start % PAGE_SIZE == 0
    &&& port_perm(port) is Some
    &&& start + len <= usize::MAX
    &&& !range_mapped(areas, start as int / (PAGE_SIZE as int), end_page(start as int, len as int))
    &&& end_page(start as int, len as int) - start as int / (PAGE_SIZE as int) <= nfree
}

/// Whether `munmap(start, len)` succeeds on an address space with `areas`.
pub open spec fn munmap_ok(areas: Seq<AreaView>, start: usize, len: usize) -> bool {
    &&& len > 0
    &&& start % PAGE_SIZE == 0
    &&& len % PAGE_SIZE == 0
    &&& start + len <= usize::MAX
    &&& exact_match(
        areas,
        (start / PAGE_SIZE) as usize,
        ((start + len) / (PAGE_SIZE as int)) as usize,
    ) is Some
}

/// `m` with the bytes of frame `ppn` zeroed.
pub open spec fn zero_frame_spec(m: Seq<u8>, ppn: int) -> Seq<u8> {
    Seq::new(
        m.len(),
        |x: int| if ppn * PAGE_SIZE <= x < (ppn + 1) * PAGE_SIZE { 0u8 } else { m[x] },
    )
}

/// Zeroes every frame in `frames`, one after the other.
fn zero_frames(mem: &mut Vec<u8>, frames: &Vec<usize>, nframes: usize)
    requires
        old(mem)@.len() == nframes * PAGE_SIZE,
        forall|x: int| 0 <= x < frames@.len() ==> #[trigger] frames@[x] < nframes,
    ensures
        final(mem)@.len() == old(mem)@.len(),
{
    let mut j: usize = 0;
    while j < frames.len()
        invariant
            mem@.len() == nframes * PAGE_SIZE,
            j <= frames@.len(),
            forall|x: int| 0 <= x < frames@.len() ==> #[trigger] frames@[x] < nframes,
        decreases frames@.len() - j,
    {
        assert((frames@[j as int] + 1) * PAGE_SIZE <= nframes * PAGE_SIZE) by (nonlinear_arith)
            requires frames@[j as int] < nframes;
        zero_frame(mem, frames[j]);
        j = j + 1;
    }
}

fn zero_frame(mem: &mut Vec<u8>, ppn: usize)
    requires
        (ppn + 1) * PAGE_SIZE <= old(mem)@.len(),
    ensures
        final(mem)@ == zero_frame_spec(old(mem)@, ppn as int),
{
    let _n = mem.len();
    assert(ppn * PAGE_SIZE <= (ppn + 1) * PAGE_SIZE) by (nonlinear_arith);
    let base = ppn * PAGE_SIZE;
    let mut j: usize = 0;
    let ghost m0 = mem@;
    while j < PAGE_SIZE
        invariant
            base == ppn * PAGE_SIZE,
            base + PAGE_SIZE <= mem@.len(),
            mem@.len() == m0.len(),
            j <= PAGE_SIZE,
            forall|x: int|
                0 <= x < m0.len() ==> #[trigger] mem@[x] == if base <= x < base + j {
                    0u8
                } else {
                    m0[x]
                },
        decreases PAGE_SIZE - j,
    {
        mem.set(base + j, 0);
        j = j + 1;
    }
    assert(mem@ =~= zero_frame_spec(m0, ppn as int));
}

/// Maps `[start, start + len)` (rounded up to whole pages) into the running
/// task with the rights in `port`, backed by zeroed free frames. Returns 0,
/// or -1 with nothing changed when `start` is not page-aligned, `port` is
/// invalid, the range wraps around, a page of it is already mapped, or too
/// few frames are free.
pub fn sys_mmap(k: &mut Kernel, start: usize, len: usize, port: usize) -> (r: isize)
    requires
        old(k).wf(),
    ensures
        final(k).wf(),
        r == 0 || r == -1,
        r == 0 <==> mmap_ok(
            old(k).cur().memory_set@,
            old(k).free_frames@.len() as int,
            start,
            len,
            port,
        ),
        r == -1 ==> *final(k) == *old(k),
        r == 0 ==> {
            let pages = end_page(start as int, len as int) - start as int / (PAGE_SIZE as int);
            let nfree = old(k).free_frames@.len() - pages;
            &&& final(k).current == old(k).current
            &&& final(k).free_frames@ == old(k).free_frames@.subrange(0, nfree)
            &&& final(k).cur().memory_set@ == old(k).cur().memory_set@.push(
                AreaView {
                    start: (start / PAGE_SIZE) as usize,
                    end: end_page(start as int, len as int) as usize,
                    perm: port_perm(port)->0,
                    frames: old(k).free_frames@.subrange(nfree, old(k).free_frames@.len() as int),
                },
            )
        },
{
    if start % PAGE_SIZE != 0 || port >= 8 || port == 0 {
        return -1;
    }
    if len > usize::MAX - start {
        return -1;
    }
    let perm = MapPermission {
        read: port % 2 == 1,
        write: (port / 2) % 2 == 1,
        execute: (port / 4) % 2 == 1,
        user: true,
    };
    let end = start + len;
    let start_vpn = start / PAGE_SIZE;
    let end_vpn = if end % PAGE_SIZE == 0 { end / PAGE_SIZE } else { end / PAGE_SIZE + 1 };
    let cur = k.current;
    let overlaps = match &k.tasks[cur] {
        Some(t) => t.memory_set.check_vpn_range(start_vpn, end_vpn),
        None => true,
    };
    if overlaps {
        return -1;
    }
    let pages = end_vpn - start_vpn;
    if pages > k.free_frames.len() {
        return -1;
    }
    let at = k.free_frames.len() - pages;
    let ghost k0 = *k;
    let frames = k.free_frames.split_off(at);
    assert(frames@ == k0.free_frames@.subrange(at as int, k0.free_frames@.len() as int));
    zero_frames(&mut k.mem, &frames, k.nframes);
    let mut t = k.take_current();
    assert(t.wf());
    assert(forall|j: int| 0 <= j < frames@.len() ==> frames@[j] < MAX_FRAMES);
    t.memory_set.insert_framed_area(start_vpn, end_vpn, perm, frames);
    k.put_current(t);
    assert(frames_below(k.cur().memory_set@, k.nframes as int)) by {
        let a = k.cur().memory_set@;
        assert forall|i: int, j: int|
            0 <= i < a.len() && 0 <= j < a[i].frames.len() implies #[trigger] a[i].frames[j]
            < k.nframes by {
            if i < a.len() - 1 {
                assert(a[i] == k0.cur().memory_set@[i]);
            }
        }
    }
    assert forall|i: int|
        0 <= i < k.tasks@.len() implies (#[trigger] k.tasks@[i] matches Some(t) ==> {
            &&& t.pid == i
            &&& t.wf()
            &&& frames_below(t.memory_set@, k.nframes as int)
        }) by {
        if i != k.current as int {
            assert(k.tasks@[i] == k0.tasks@[i]);
        }
    }
    0
}

/// Unmaps the area of the running task that spans exactly
/// `[start, start + len)` and frees its frames. Returns 0, or -1 with nothing
/// changed when `len` is zero, `start` or `len` is not page-aligned, the range
/// wraps around, or no area has exactly these bounds.
pub fn sys_munmap(k: &mut Kernel, start: usize, len: usize) -> (r: isize)
    requires
        old(k).wf(),
    ensures
        final(k).wf(),
        r == 0 || r == -1,
        r == 0 <==> munmap_ok(old(k).cur().memory_set@, start, len),
        r == -1 ==> *final(k) == *old(k),
        r == 0 ==> {
            let areas = old(k).cur().memory_set@;
            let i = exact_match(
                areas,
                (start / PAGE_SIZE) as usize,
                ((start + len) / (PAGE_SIZE as int)) as usize,
            )->0;
            &&& final(k).current == old(k).current
            &&& final(k).cur().memory_set@ == areas.remove(i)
            &&& final(k).free_frames@ == old(k).free_frames@ + areas[i].frames
        },
{
    if len == 0 || start % PAGE_SIZE != 0 || len % PAGE_SIZE != 0 || len > usize::MAX - start {
        return -1;
    }
    let start_vpn = start / PAGE_SIZE;
    let end_vpn = (start + len) / PAGE_SIZE;
    assert(start_vpn < end_vpn);
    let cur = k.current;
    let found = match &k.tasks[cur] {
        Some(t) => t.memory_set.find_exact_match(start_vpn, end_vpn).is_some(),
        None => false,
    };
    if !found {
        return -1;
    }
    let ghost k0 = *k;
    let mut t = k.take_current();
    let removed = t.memory_set.remove_area(start_vpn, end_vpn);
    k.put_current(t);
    match removed {
        Some(mut frames) => {
            let ghost fr = frames@;
            k.free_frames.append(&mut frames);
            proof {
                let a0 = k0.cur().memory_set@;
                let idx = exact_match(a0, start_vpn, end_vpn)->0;
                assert forall|j: int| 0 <= j < k.free_frames@.len() implies #[trigger] k.free_frames@[j]
                    < k.nframes by {
                    if j >= k0.free_frames@.len() {
                        assert(fr[j - k0.free_frames@.len()] == a0[idx].frames[j - k0.free_frames@.len()]);
                    }
                }
                let a = k.cur().memory_set@;
                assert forall|i: int, j: int|
                    0 <= i < a.len() && 0 <= j < a[i].frames.len() implies #[trigger] a[i].frames[j]
                    < k.nframes by {
                    let oi = if i < idx { i } else { i + 1 };
                    assert(a[i] == a0[oi]);
                }
                assert forall|i: int|
                    0 <= i < k.tasks@.len() implies (#[trigger] k.tasks@[i] matches Some(t) ==> {
                        &&& t.pid == i
                        &&& t.wf()
                        &&& frames_below(t.memory_set@, k.nframes as int)
                    }) by {
                    if i != k.current as int {
                        assert(k.tasks@[i] == k0.tasks@[i]);
                    }
                }
            }
            0
        },
        None => {
            proof {
                assert(false);
            }
            -1
        },
    }
}

/// mmap/munmap round trip: when `mmap(start, len, port)` succeeds with a
/// page-multiple `len`, the area it adds (whatever frames back it) is
/// exactly what `munmap(start, len)` then removes, so the area set returns
/// to what it was; and since munmap gives the frames back, the same `mmap`
/// succeeds again.
pub proof fn lemma_mmap_munmap_round_trip(
    areas: Seq<AreaView>,
    nfree: int,
    start: usize,
    len: usize,
    port: usize,
    frames: Seq<usize>,
)
    requires
        areas_wf(areas),
        mmap_ok(areas, nfree, start, len, port),
        len > 0,
        len % PAGE_SIZE == 0,
        frames.len() == end_page(start as int, len as int) - start as int / (PAGE_SIZE as int),
    ensures
        ({
            let added = areas.push(
                AreaView {
                    start: (start / PAGE_SIZE) as usize,
                    end: end_page(start as int, len as int) as usize,
                    perm: port_perm(port)->0,
                    frames,
                },
            );
            &&& munmap_ok(added, start, len)
            &&& added.remove(
                exact_match(
                    added,
                    (start / PAGE_SIZE) as usize,
                    ((start + len) / (PAGE_SIZE as int)) as usize,
                )->0,
            ) == areas
            &&& mmap_ok(added.remove(areas.len() as int), nfree, start, len, port)
        }),
{
    let s = (start / PAGE_SIZE) as usize;
    let e = end_page(start as int, len as int) as usize;
    assert(e == (start + len) / (PAGE_SIZE as int));
    let na = AreaView { start: s, end: e, perm: port_perm(port)->0, frames };
    let added = areas.push(na);
    assert(bounds(added[areas.len() as int]) == (s, e));
    let idx = exact_match(added, s, e)->0;
    assert(0 <= idx < added.len() && bounds(added[idx]) == (s, e));
    if idx != areas.len() as int {
        assert(added[idx] == areas[idx]);
        assert(s < e);
        assert(covers(areas[idx], s as int));
        assert(vpn_mapped(areas, s as int));
    }
    assert(added.remove(areas.len() as int) =~= areas);
}

/// Overlap rejection: once `mmap(start, len, port)` has mapped a non-empty
/// range, a second `mmap` on any `start2, len2` whose pages meet it fails, so
/// the first mapping stays as it was.
pub proof fn lemma_mmap_overlap_rejected(
    areas: Seq<AreaView>,
    nfree: int,
    start: usize,
    len: usize,
    port: usize,
    frames: Seq<usize>,
    start2: usize,
    len2: usize,
    port2: usize,
)
    requires
        mmap_ok(areas, nfree, start, len, port),
        len > 0,
        len2 > 0,
        start2 as int / (PAGE_SIZE as int) < end_page(start as int, len as int),
        start as int / (PAGE_SIZE as int) < end_page(start2 as int, len2 as int),
    ensures
        !mmap_ok(
            areas.push(
                AreaView {
                    start: (start / PAGE_SIZE) as usize,
                    end: end_page(start as int, len as int) as usize,
                    perm: port_perm(port)->0,
                    frames,
                },
            ),
            nfree,
            start2,
            len2,
            port2,
        ),
{
    let s = start as int / (PAGE_SIZE as int);
    let e = end_page(start as int, len as int);
    let s2 = start2 as int / (PAGE_SIZE as int);
    let na = AreaView { start: s as usize, end: e as usize, perm: port_perm(port)->0, frames };
    let added = areas.push(na);
    let v = if s < s2 { s2 } else { s };
    assert(s2 < end_page(start2 as int, len2 as int));
    assert(s < e);
    assert(covers(added[areas.len() as int], v));
    assert(vpn_mapped(added, v));
    assert(s2 <= v < end_page(start2 as int, len2 as int));
}

/// Ready pool once the running task has yielded into it.
pub open spec fn pool_after_yield(k: Kernel) -> Seq<SchedEntry> {
    k.manager.ready@.push(SchedEntry { pid: k.current, pass: k.cur().pass, stride: k.cur().stride })
}

/// Switches to the task picked from the ready pool, if the pool is not empty.
pub(crate) fn run_next(k: &mut Kernel) -> (switched: bool)
    requires
        old(k).current < old(k).tasks@.len(),
        old(k).tasks@.len() <= isize::MAX,
        old(k).tasks@[old(k).current as int] is Some,
        forall|i: int|
            0 <= i < old(k).tasks@.len() ==> (#[trigger] old(k).tasks@[i] matches Some(t) ==> {
                &&& t.pid == i
                &&& t.wf()
                &&& frames_below(t.memory_set@, old(k).nframes as int)
            }),
        forall|j: int| 0 <= j < old(k).free_frames@.len() ==> #[trigger] old(k).free_frames@[j] < old(k).nframes,
        old(k).nframes <= MAX_FRAMES,
        old(k).mem@.len() == old(k).nframes * PAGE_SIZE,
        pids_distinct(old(k).manager.ready@),
        no_overflow(old(k).manager.ready@),
        forall|j: int|
            0 <= j < old(k).manager.ready@.len() ==> {
                &&& (#[trigger] old(k).manager.ready@[j]).pid < old(k).tasks@.len()
                &&& old(k).tasks@[old(k).manager.ready@[j].pid as int] matches Some(t)
                    && t.task_status == TaskStatus::Ready
            },
        old(k).manager.ready@.len() > 0 || forall|j: int|
            0 <= j < old(k).manager.ready@.len() ==> (#[trigger] old(k).manager.ready@[j]).pid
                != old(k).current,
    ensures
        final(k).wf() || !switched,
        switched == (old(k).manager.ready@.len() > 0),
        !switched ==> *final(k) == *old(k),
        switched ==> {
            let pool = old(k).manager.ready@;
            let e = bump(pool[pick(pool)]);
            &&& final(k).current == e.pid
            &&& final(k).manager.ready@ == pool.remove(pick(pool))
            &&& final(k).cur().task_status == TaskStatus::Running
            &&& final(k).cur().pass == e.pass
            &&& final(k).tasks@ == old(k).tasks@.update(
                e.pid as int,
                Some(
                    TaskControlBlock {
                        task_status: TaskStatus::Running,
                        pass: e.pass,
                        ..old(k).tasks@[e.pid as int]->0
                    },
                ),
            )
            &&& final(k).free_frames == old(k).free_frames
            &&& final(k).mem == old(k).mem
            &&& final(k).nframes == old(k).nframes
        },
{
    let ghost k0 = *k;
    if k.manager.ready.len() == 0 {
        return false;
    }
    match k.manager.fetch() {
        None => false,
        Some(e) => {
            proof {
                crate::sched::lemma_pick_exists(k0.manager.ready@);
                assert(k0.manager.ready@.contains(k0.manager.ready@[pick(k0.manager.ready@)]));
            }
            k.current = e.pid;
            let mut t = k.take_current();
            t.task_status = TaskStatus::Running;
            t.pass = e.pass;
            k.put_current(t);
            proof {
                let pool = k0.manager.ready@;
                let pk = pick(pool);
                assert forall|j: int| 0 <= j < k.manager.ready@.len() implies {
                    &&& (#[trigger] k.manager.ready@[j]).pid != k.current
                    &&& k.manager.ready@[j].pid < k.tasks@.len()
                    &&& k.tasks@[k.manager.ready@[j].pid as int] matches Some(t)
                        && t.task_status == TaskStatus::Ready
                } by {
                    let oj = if j < pk { j } else { j + 1 };
                    assert(k.manager.ready@[j] == pool[oj]);
                    assert(oj != pk);
                }
                assert(pids_distinct(k.manager.ready@)) by {
                    assert forall|a: int, b: int|
                        0 <= a < k.manager.ready@.len() && 0 <= b < k.manager.ready@.len() && a != b
                        implies (#[trigger] k.manager.ready@[a]).pid != (#[trigger] k.manager.ready@[b]).pid by {
                        let oa = if a < pk { a } else { a + 1 };
                        let ob = if b < pk { b } else { b + 1 };
                        assert(k.manager.ready@[a] == pool[oa]);
                        assert(k.manager.ready@[b] == pool[ob]);
                    }
                }
                assert forall|i: int|
                    0 <= i < k.tasks@.len() implies (#[trigger] k.tasks@[i] matches Some(t) ==> {
                        &&& t.pid == i
                        &&& t.wf()
                        &&& frames_below(t.memory_set@, k.nframes as int)
                    }) by {
                    if i != k.current as int {
                        assert(k.tasks@[i] == k0.tasks@[i]);
                    }
                }
            }
            true
        },
    }
}

/// The running task gives up the processor: it goes back into the ready pool
/// with its pass unchanged, and the task with the least pass runs. Returns 0.
pub fn sys_yield(k: &mut Kernel) -> (r: isize)
    requires
        old(k).wf(),
        no_overflow(pool_after_yield(*old(k))),
    ensures
        final(k).wf(),
        r == 0,
        ({
            let pool = pool_after_yield(*old(k));
            let e = bump(pool[pick(pool)]);
            &&& final(k).current == e.pid
            &&& final(k).manager.ready@ == pool.remove(pick(pool))
            &&& final(k).cur().task_status == TaskStatus::Running
            &&& final(k).cur().pass == e.pass
            &&& e.pid != old(k).current ==> final(k).tasks@[old(k).current as int] is Some
                && final(k).tasks@[old(k).current as int]->0.task_status == TaskStatus::Ready
        }),
{
    let ghost k0 = *k;
    let mut t = k.take_current();
    let entry = SchedEntry { pid: t.pid, pass: t.pass, stride: t.stride };
    t.task_status = TaskStatus::Ready;
    k.put_current(t);
    k.manager.add(entry);
    proof {
        assert(k.manager.ready@ == pool_after_yield(k0));
        let pool = k.manager.ready@;
        assert(pids_distinct(pool)) by {
            assert forall|a: int, b: int|
                0 <= a < pool.len() && 0 <= b < pool.len() && a != b implies (#[trigger] pool[a]).pid
                != (#[trigger] pool[b]).pid by {
                if a < pool.len() - 1 {
                    assert(pool[a] == k0.manager.ready@[a]);
                }
                if b < pool.len() - 1 {
                    assert(pool[b] == k0.manager.ready@[b]);
                }
            }
        }
        assert forall|j: int| 0 <= j < pool.len() implies {
            &&& (#[trigger] pool[j]).pid < k.tasks@.len()
            &&& k.tasks@[pool[j].pid as int] matches Some(t) && t.task_status == TaskStatus::Ready
        } by {
            if j < pool.len() - 1 {
                assert(pool[j] == k0.manager.ready@[j]);
            }
        }
        assert forall|i: int|
            0 <= i < k.tasks@.len() implies (#[trigger] k.tasks@[i] matches Some(t) ==> {
                &&& t.pid == i
                &&& t.wf()
                &&& frames_below(t.memory_set@, k.nframes as int)
            }) by {
            if i != k.current as int {
                assert(k.tasks@[i] == k0.tasks@[i]);
            }
        }
    }
    let ghost k1 = *k;
    proof {
        crate::sched::lemma_pick_exists(k1.manager.ready@);
    }
    run_next(k);
    0
}

/// Sets the running task's priority. Returns `prio`, or -1 with nothing
/// changed when `prio < 2`.
pub fn sys_set_priority(k: &mut Kernel, prio: isize) -> (r: isize)
    requires
        old(k).wf(),
    ensures
        final(k).wf(),
        prio < 2 ==> r == -1 && *final(k) == *old(k),
        prio >= 2 ==> {
            &&& r == prio
            &&& final(k).current == old(k).current
            &&& final(k).cur().priority == prio as u64
            &&& final(k).cur().stride == crate::config::BIG_STRIDE / (prio as u64)
            &&& final(k).cur().pass == if old(k).cur().pass == 0 {
                crate::config::BIG_STRIDE / (prio as u64)
            } else {
                old(k).cur().pass
            }
        },
{
    if prio < 2 {
        return -1;
    }
    let ghost k0 = *k;
    let mut t = k.take_current();
    t.set_priority(prio as u64);
    k.put_current(t);
    proof {
        assert forall|i: int|
            0 <= i < k.tasks@.len() implies (#[trigger] k.tasks@[i] matches Some(t) ==> {
                &&& t.pid == i
                &&& t.wf()
                &&& frames_below(t.memory_set@, k.nframes as int)
            }) by {
            if i != k.current as int {
                assert(k.tasks@[i] == k0.tasks@[i]);
            }
        }
    }
    prio
}

/// All frames of `areas`, area after area.
pub open spec fn all_frames(areas: Seq<AreaView>) -> Seq<usize>
    decreases areas.len(),
{
    if areas.len() == 0 {
        Seq::empty()
    } else {
        all_frames(areas.drop_last()) + areas.last().frames
    }
}

/// Gives every frame of `ms` back to the free list.
fn release_frames(free: &mut Vec<usize>, ms: MemorySet, nframes: usize)
    requires
        frames_below(ms@, nframes as int),
        forall|j: int| 0 <= j < old(free)@.len() ==> #[trigger] old(free)@[j] < nframes,
    ensures
        final(free)@ == old(free)@ + all_frames(ms@),
        forall|j: int| 0 <= j < final(free)@.len() ==> #[trigger] final(free)@[j] < nframes,
{
    let mut areas = ms.areas;
    let ghost a0 = areas@.map_values(|a: MapArea| a@);
    assert(a0 == ms@);
    let mut i: usize = 0;
    let n = areas.len();
    while i < n
        invariant
            n == areas@.len(),
            i <= n,
            a0 == ms@,
            a0.len() == n,
            frames_below(a0, nframes as int),
            forall|j: int| i <= j < n ==> (#[trigger] areas@[j])@ == a0[j],
            free@ == old(free)@ + all_frames(a0.subrange(0, i as int)),
            forall|j: int| 0 <= j < free@.len() ==> #[trigger] free@[j] < nframes,
        decreases n - i,
    {
        let ghost old_areas = areas@;
        let mut f: Vec<usize> = Vec::new();
        std::mem::swap(&mut f, &mut areas[i].frames);
        assert(f@ == a0[i as int].frames);
        let ghost before = free@;
        free.append(&mut f);
        proof {
            assert(a0.subrange(0, i + 1).drop_last() =~= a0.subrange(0, i as int));
            assert(a0.subrange(0, i + 1).last() == a0[i as int]);
            assert(free@ =~= old(free)@ + all_frames(a0.subrange(0, i + 1)));
            assert forall|j: int| 0 <= j < free@.len() implies #[trigger] free@[j] < nframes by {
                if j >= before.len() {
                    assert(free@[j] == a0[i as int].frames[j - before.len()]);
                }
            }
            assert forall|j: int| i + 1 <= j < n implies (#[trigger] areas@[j])@ == a0[j] by {
                assert(areas@[j] == old_areas[j]);
            }
        }
        i = i + 1;
    }
    assert(a0.subrange(0, n as int) =~= a0);
}

/// Records task 0 as the parent of every live task listed in `orphans`
/// (other than task 0 and the running task).
fn reparent(k: &mut Kernel, orphans: &Vec<usize>)
    requires
        old(k).wf(),
    ensures
        final(k).wf(),
        final(k).current == old(k).current,
        final(k).manager == old(k).manager,
        final(k).free_frames == old(k).free_frames,
        final(k).nframes == old(k).nframes,
        final(k).mem == old(k).mem,
        final(k).tasks@.len() == old(k).tasks@.len(),
        forall|i: int|
            0 <= i < old(k).tasks@.len() ==> (#[trigger] final(k).tasks@[i] is Some) == (old(k).tasks@[i] is Some),
        forall|i: int|
            0 <= i < old(k).tasks@.len() && old(k).tasks@[i] is Some ==> {
                let t0 = old(k).tasks@[i]->0;
                let t1 = final(k).tasks@[i]->0;
                &&& t1.task_status == t0.task_status
                &&& t1.children == t0.children
                &&& t1.exit_code == t0.exit_code
                &&& t1.memory_set == t0.memory_set
                &&& t1.fd_table == t0.fd_table
                &&& t1.parent == if orphans@.contains(i as usize) && i != 0 && i != old(k).current {
                    Some(0usize)
                } else {
                    t0.parent
                }
            },
{
    let ghost k0 = *k;
    let n = orphans.len();
    let mut i: usize = 0;
    while i < n
        invariant
            n == orphans@.len(),
            i <= n,
            k.wf(),
            k.current == k0.current,
            k.manager == k0.manager,
            k.free_frames == k0.free_frames,
            k.nframes == k0.nframes,
            k.mem == k0.mem,
            k.tasks@.len() == k0.tasks@.len(),
            forall|j: int|
                0 <= j < k0.tasks@.len() ==> (#[trigger] k.tasks@[j] is Some) == (k0.tasks@[j] is Some),
            forall|j: int|
                0 <= j < k0.tasks@.len() && k0.tasks@[j] is Some ==> {
                    let t0 = k0.tasks@[j]->0;
                    let t1 = k.tasks@[j]->0;
                    &&& t1.task_status == t0.task_status
                    &&& t1.children == t0.children
                    &&& t1.exit_code == t0.exit_code
                    &&& t1.memory_set == t0.memory_set
                    &&& t1.fd_table == t0.fd_table
                    &&& t1.parent == if orphans@.subrange(0, i as int).contains(j as usize) && j != 0
                        && j != k0.current {
                        Some(0usize)
                    } else {
                        t0.parent
                    }
                },
        decreases n - i,
    {
        let c = orphans[i];
        let ghost kb = *k;
        if c < k.tasks.len() && c != 0 && c != k.current {
            let mut slot: Option<TaskControlBlock> = None;
            std::mem::swap(&mut slot, &mut k.tasks[c]);
            match slot {
                Some(mut t) => {
                    t.parent = Some(0);
                    k.tasks.set(c, Some(t));
                },
                None => {
                    k.tasks.set(c, None);
                },
            }
            proof {
                assert forall|j: int|
                    0 <= j < k.tasks@.len() implies (#[trigger] k.tasks@[j] matches Some(t) ==> {
                        &&& t.pid == j
                        &&& t.wf()
                        &&& frames_below(t.memory_set@, k.nframes as int)
                    }) by {
                    if j != c as int {
                        assert(k.tasks@[j] == kb.tasks@[j]);
                    }
                }
                assert forall|j: int| 0 <= j < k.manager.ready@.len() implies {
                    &&& (#[trigger] k.manager.ready@[j]).pid != k.current
                    &&& k.manager.ready@[j].pid < k.tasks@.len()
                    &&& k.tasks@[k.manager.ready@[j].pid as int] matches Some(t) && t.task_status
                        == TaskStatus::Ready
                } by {
                    let q = k.manager.ready@[j].pid as int;
                    assert(kb.tasks@[q] matches Some(t) && t.task_status == TaskStatus::Ready);
                    if q != c as int {
                        assert(k.tasks@[q] == kb.tasks@[q]);
                    }
                }
            }
        }
        proof {
            let pre = orphans@.subrange(0, i as int);
            let post = orphans@.subrange(0, i + 1);
            assert(post =~= pre.push(c));
            assert forall|j: int| 0 <= j < k0.tasks@.len() && j != c as int implies k.tasks@[j] == kb.tasks@[j] by {
            }
            assert forall|x: usize| #[trigger] post.contains(x) == (pre.contains(x) || x == c) by {
                if post.contains(x) && x != c {
                    let w = choose|w: int| 0 <= w < post.len() && post[w] == x;
                    assert(pre[w] == x);
                }
                if pre.contains(x) {
                    let w = choose|w: int| 0 <= w < pre.len() && pre[w] == x;
                    assert(post[w] == x);
                }
                if x == c {
                    assert(post[i as int] == x);
                }
            }
        }
        i = i + 1;
    }
    assert(orphans@.subrange(0, n as int) =~= orphans@);
}

/// The running task exits with `exit_code`: it becomes a zombie holding its
/// exit code, its frames go back to the free list, its address space and
/// file table are emptied, and its children are handed to task 0 (unless it
/// is task 0 itself, or task 0 is gone, in which case they stay orphans).
/// Then the task with the least pass runs. Returns whether there was one.
pub fn sys_exit(k: &mut Kernel, exit_code: i32) -> (switched: bool)
    requires
        old(k).wf(),
        no_overflow(old(k).manager.ready@),
    ensures
        final(k).wf(),
        switched == (old(k).manager.ready@.len() > 0),
        ({
            let z = final(k).tasks@[old(k).current as int]->0;
            &&& final(k).tasks@[old(k).current as int] is Some
            &&& z.task_status == TaskStatus::Zombie
            &&& z.exit_code == exit_code
            &&& z.memory_set@.len() == 0
            &&& z.fd_table@.len() == 0
            &&& final(k).free_frames@ == old(k).free_frames@ + all_frames(old(k).cur().memory_set@)
        }),
        (old(k).current != 0 && old(k).tasks@[0] is Some) ==> final(k).tasks@[0] is Some
            && final(k).tasks@[0]->0.children@ == old(k).tasks@[0]->0.children@
            + old(k).cur().children@,
        !switched ==> final(k).current == old(k).current,
        switched ==> final(k).current == old(k).manager.ready@[pick(old(k).manager.ready@)].pid,
        forall|c: int|
            0 <= c < old(k).tasks@.len() && old(k).cur().children@.contains(c as usize) && c != 0
                && c != old(k).current && old(k).current != 0 && old(k).tasks@[c] is Some
                ==> final(k).tasks@[c] is Some && final(k).tasks@[c]->0.parent == Some(0usize),
{
    let ghost k0 = *k;
    let cur = k.current;
    let mut t = k.take_current();
    t.task_status = TaskStatus::Zombie;
    t.exit_code = exit_code;
    let mut ms = MemorySet::new_bare();
    std::mem::swap(&mut ms, &mut t.memory_set);
    release_frames(&mut k.free_frames, ms, k.nframes);
    t.fd_table = Vec::new();
    let mut orphans: Vec<usize> = Vec::new();
    std::mem::swap(&mut orphans, &mut t.children);
    let listed = copy_ids(&orphans);
    k.put_current(t);
    let ghost k1 = *k;
    if cur != 0 {
        let mut slot: Option<TaskControlBlock> = None;
        std::mem::swap(&mut slot, &mut k.tasks[0]);
        match slot {
            Some(mut init) => {
                init.children.append(&mut orphans);
                k.tasks.set(0, Some(init));
            },
            None => {},
        }
    }
    proof {
        assert forall|i: int|
            0 <= i < k.tasks@.len() implies (#[trigger] k.tasks@[i] matches Some(t) ==> {
                &&& t.pid == i
                &&& t.wf()
                &&& frames_below(t.memory_set@, k.nframes as int)
            }) by {
            if i != cur as int && i != 0 {
                assert(k.tasks@[i] == k0.tasks@[i]);
            }
            if i == 0 && cur != 0 {
                assert(k0.tasks@[0] matches Some(t) ==> t.wf());
            }
        }
        assert forall|j: int| 0 <= j < k.manager.ready@.len() implies {
            &&& (#[trigger] k.manager.ready@[j]).pid != k.current
            &&& k.manager.ready@[j].pid < k.tasks@.len()
            &&& k.tasks@[k.manager.ready@[j].pid as int] matches Some(t) && t.task_status
                == TaskStatus::Ready
        } by {
            let p = k.manager.ready@[j].pid as int;
            assert(k0.tasks@[p] matches Some(t) && t.task_status == TaskStatus::Ready);
            if p == 0 {
                assert(k.tasks@[0]->0.task_status == k0.tasks@[0]->0.task_status);
            } else {
                assert(k.tasks@[p] == k0.tasks@[p]);
            }
        }
        let mm0 = Seq::<AreaView>::empty();
        assert(frames_below(mm0, k.nframes as int));
        if k.manager.ready@.len() > 0 {
            crate::sched::lemma_pick_exists(k.manager.ready@);
            assert(k.manager.ready@[pick(k.manager.ready@)].pid != cur);
        }
    }
    let ghost k2 = *k;
    if cur != 0 {
        reparent(k, &listed);
    }
    let ghost k3 = *k;
    proof {
        if k3.manager.ready@.len() > 0 {
            crate::sched::lemma_pick_exists(k3.manager.ready@);
        }
    }
    let switched = run_next(k);
    proof {
        if switched {
            let e = bump(k3.manager.ready@[pick(k3.manager.ready@)]);
            assert(e.pid != cur);
            assert(k.tasks@[cur as int] == k3.tasks@[cur as int]);
            if e.pid == 0 {
                assert(k.tasks@[0]->0.children == k3.tasks@[0]->0.children);
            } else {
                assert(k.tasks@[0] == k3.tasks@[0]);
            }
        }
    }
    switched
}

/// Physical memory after writing `d` to the running task's user address `va`.
pub open spec fn user_write(k: Kernel, va: usize, d: Seq<u8>, m: Seq<u8>) -> bool {
    exists|r: Seq<PhysRange>|
        bridge_pieces_ok(k.cur().memory_set@, va as int, d.len() as int, r) && m == write_pieces(
            k.mem@,
            r,
            d,
            0,
        )
}

/// Copies `d` to user address `va` of the running task. Returns `false`,
/// with nothing changed, when some page of the destination is unmapped or
/// not writable by the task.
pub fn copy_to_user(k: &mut Kernel, va: usize, d: &Vec<u8>) -> (ok: bool)
    requires
        old(k).wf(),
        d@.len() > 0,
    ensures
        final(k).wf(),
        ok == (va + d@.len() <= usize::MAX && range_accessible(
            old(k).cur().memory_set@,
            va as int,
            d@.len() as int,
            true,
        )),
        !ok ==> *final(k) == *old(k),
        ok ==> user_write(*old(k), va, d@, final(k).mem@),
        final(k).tasks == old(k).tasks,
        final(k).current == old(k).current,
        final(k).manager == old(k).manager,
        final(k).free_frames == old(k).free_frames,
        final(k).nframes == old(k).nframes,
{
    if d.len() > usize::MAX - va {
        return false;
    }
    let cur = k.current;
    let pieces = match &k.tasks[cur] {
        Some(t) => translated_byte_buffer(&t.memory_set, va, d.len(), true),
        None => None,
    };
    match pieces {
        None => false,
        Some(r) => {
            proof {
                lemma_bridge_pieces_fit(
                    k.cur().memory_set@,
                    va as int,
                    d@.len() as int,
                    r@,
                    k.nframes as int,
                    true,
                );
            }
            write_user_bytes(&mut k.mem, &r, d);
            true
        },
    }
}

/// Two's-complement bit pattern of `x`.
pub open spec fn i32_bits(x: i32) -> nat {
    if x < 0 {
        (x + 0x1_0000_0000) as nat
    } else {
        x as nat
    }
}

/// Whether `waitpid(pid, ..)` is about child `c`.
pub open spec fn wait_matches(pid: isize, c: usize) -> bool {
    pid == -1 || pid as int == c as int
}

/// Whether child `c` of the running task can be reaped by `waitpid(pid, ..)`.
pub open spec fn reapable(k: Kernel, pid: isize, c: usize) -> bool {
    &&& wait_matches(pid, c)
    &&& c < k.tasks@.len()
    &&& c != k.current
    &&& k.tasks@[c as int] matches Some(t) && t.task_status == TaskStatus::Zombie
}

/// Whether `i` is the first position in the running task's child list that
/// `waitpid(pid, ..)` can reap.
pub open spec fn first_reapable(k: Kernel, pid: isize, i: int) -> bool {
    &&& 0 <= i < k.cur().children@.len()
    &&& reapable(k, pid, k.cur().children@[i])
    &&& forall|j: int| 0 <= j < i ==> !reapable(k, pid, #[trigger] k.cur().children@[j])
}

/// waitpid before any exit: when no child of the running task is an exited
/// task, `waitpid(pid, ..)` finds nothing to reap (so it answers -2 when some
/// child matches `pid`, and -1 when none does).
pub proof fn lemma_wait_before_exit(k: Kernel, pid: isize)
    requires
        forall|i: int|
            0 <= i < k.cur().children@.len() ==> !(k.tasks@[#[trigger] k.cur().children@[i] as int] matches Some(t)
                && t.task_status == TaskStatus::Zombie),
    ensures
        !(exists|i: int| first_reapable(k, pid, i)),
{
    assert forall|i: int| !first_reapable(k, pid, i) by {
        if first_reapable(k, pid, i) {
            let c = k.cur().children@[i];
            assert(k.tasks@[c as int] matches Some(t) && t.task_status == TaskStatus::Zombie);
        }
    }
}

/// waitpid after an exit: the first child of the running task that has
/// exited is the one `waitpid(-1, ..)` reaps, returning its id and exit code.
pub proof fn lemma_wait_after_exit(k: Kernel, i: int)
    requires
        0 <= i < k.cur().children@.len(),
        k.cur().children@[i] < k.tasks@.len(),
        k.cur().children@[i] != k.current,
        k.tasks@[k.cur().children@[i] as int] matches Some(t) && t.task_status == TaskStatus::Zombie,
        forall|j: int|
            0 <= j < i ==> !(k.tasks@[#[trigger] k.cur().children@[j] as int] matches Some(t)
                && t.task_status == TaskStatus::Zombie),
    ensures
        first_reapable(k, -1isize, i),
        forall|j: int| #[trigger] first_reapable(k, -1isize, j) ==> j == i,
{
    assert forall|j: int| #[trigger] first_reapable(k, -1isize, j) implies j == i by {
        if j < i {
            let c = k.cur().children@[j];
            assert(k.tasks@[c as int] matches Some(t) && t.task_status == TaskStatus::Zombie);
        } else if i < j {
            assert(!reapable(k, -1isize, k.cur().children@[i]));
        }
    }
}

/// Reaps an exited child. `pid` selects one child, or any child when -1.
/// Returns -1 when no child matches; -2 when some match but none has exited;
/// -1 when the exit-code slot at `exit_code_ptr` is not writable; otherwise
/// the first exited matching child is removed from the child list and the
/// task table, its exit code is written (4 bytes, little-endian) to the slot,
/// and its id is returned. Nothing changes in the error cases.
pub fn sys_waitpid(k: &mut Kernel, pid: isize, exit_code_ptr: usize) -> (r: isize)
    requires
        old(k).wf(),
    ensures
        final(k).wf(),
        !(exists|i: int|
            0 <= i < old(k).cur().children@.len() && wait_matches(pid, #[trigger] old(k).cur().children@[i]))
            ==> r == -1 && *final(k) == *old(k),
        (exists|i: int|
            0 <= i < old(k).cur().children@.len() && wait_matches(pid, #[trigger] old(k).cur().children@[i]))
            && !(exists|i: int| first_reapable(*old(k), pid, i)) ==> r == -2 && *final(k) == *old(k),
        forall|i: int|
            first_reapable(*old(k), pid, i) ==> {
                let c = old(k).cur().children@[i];
                let code = old(k).tasks@[c as int]->0.exit_code;
                let bytes = le_bytes(i32_bits(code), 4);
                if exit_code_ptr + 4 <= usize::MAX && range_accessible(
                    old(k).cur().memory_set@,
                    exit_code_ptr as int,
                    4,
                    true,
                ) {
                    &&& r == c as isize
                    &&& final(k).current == old(k).current
                    &&& final(k).tasks@[c as int] is None
                    &&& final(k).cur().children@ == old(k).cur().children@.remove(i)
                    &&& user_write(*old(k), exit_code_ptr, bytes, final(k).mem@)
                } else {
                    r == -1 && *final(k) == *old(k)
                }
            },
{
    let ghost k0 = *k;
    let cur = k.current;
    let children = match &k.tasks[cur] {
        Some(t) => copy_ids(&t.children),
        None => Vec::new(),
    };
    let n = children.len();
    let mut any = false;
    let mut found: Option<usize> = None;
    let mut i: usize = 0;
    while i < n && found.is_none()
        invariant
            k0 == *k,
            k.wf(),
            n == children@.len(),
            children@ == k.cur().children@,
            i <= n,
            any == exists|j: int| 0 <= j < i && wait_matches(pid, #[trigger] children@[j]),
            found is None ==> forall|j: int| 0 <= j < i ==> !reapable(*k, pid, #[trigger] children@[j]),
            found matches Some(f) ==> f < i && first_reapable(*k, pid, f as int),
        decreases n - i,
    {
        let c = children[i];
        if pid == -1 || (pid >= 0 && pid as usize == c) {
            any = true;
            if c < k.tasks.len() && c != k.current {
                let z = match &k.tasks[c] {
                    Some(t) => t.task_status == TaskStatus::Zombie,
                    None => false,
                };
                if z {
                    found = Some(i);
                }
            }
        }
        proof {
            if !(pid == -1 || (pid >= 0 && pid as usize == c)) {
                assert(!wait_matches(pid, c));
            }
        }
        i = i + 1;
    }
    let idx = match found {
        None => {
            if !any {
                return -1;
            }
            proof {
                assert forall|j: int| !first_reapable(k0, pid, j) by {
                    if first_reapable(k0, pid, j) {
                        assert(!reapable(k0, pid, children@[j]));
                    }
                }
            }
            return -2;
        },
        Some(f) => f,
    };
    proof {
        assert forall|j: int| first_reapable(k0, pid, j) implies j == idx by {
            if j < idx {
                assert(!reapable(k0, pid, children@[j]));
            } else if idx < j {
                assert(!reapable(k0, pid, children@[idx as int]));
            }
        }
    }
    let c = children[idx];
    let code = match &k.tasks[c] {
        Some(t) => t.exit_code,
        None => 0,
    };
    let mut bytes: Vec<u8> = Vec::new();
    let bits: u64 = if code < 0 { (code as i64 + 0x1_0000_0000) as u64 } else { code as u64 };
    push_le(&mut bytes, bits, 4);
    proof {
        crate::encode::lemma_le_bytes_len(i32_bits(code), 4);
        assert(bytes@ =~= le_bytes(i32_bits(code), 4));
    }
    if !copy_to_user(k, exit_code_ptr, &bytes) {
        return -1;
    }
    let ghost k1 = *k;
    k.tasks.set(c, None);
    let mut t = k.take_current();
    t.children.remove(idx);
    k.put_current(t);
    proof {
        assert forall|j: int|
            0 <= j < k.tasks@.len() implies (#[trigger] k.tasks@[j] matches Some(t) ==> {
                &&& t.pid == j
                &&& t.wf()
                &&& frames_below(t.memory_set@, k.nframes as int)
            }) by {
            if j != cur as int && j != c as int {
                assert(k.tasks@[j] == k0.tasks@[j]);
            }
        }
        assert forall|j: int| 0 <= j < k.manager.ready@.len() implies {
            &&& (#[trigger] k.manager.ready@[j]).pid != k.current
            &&& k.manager.ready@[j].pid < k.tasks@.len()
            &&& k.tasks@[k.manager.ready@[j].pid as int] matches Some(t) && t.task_status
                == TaskStatus::Ready
        } by {
            let q = k.manager.ready@[j].pid as int;
            assert(k0.tasks@[q] matches Some(t) && t.task_status == TaskStatus::Ready);
            assert(q != c as int);
            assert(k.tasks@[q] == k0.tasks@[q]);
        }
    }
    c as isize
}

/// A segment of a program image: pages `[start_vpn, end_vpn)` with rights.
#[derive(Clone, Copy, PartialEq, Eq, Structural, Debug)]
pub struct Segment {
    pub start_vpn: usize,
    pub end_vpn: usize,
    pub perm: MapPermission,
}

/// The layout of a loaded program, as the program loader hands it over.
pub struct ProgramImage {
    pub segments: Vec<Segment>,
    /// Lowest heap address; the program break starts there.
    pub heap_bottom: usize,
}

/// Segments are well-formed and pairwise disjoint.
pub open spec fn segments_ok(g: Seq<Segment>) -> bool {
    &&& forall|i: int| 0 <= i < g.len() ==> (#[trigger] g[i]).start_vpn <= g[i].end_vpn
    &&& forall|i: int, j: int|
        0 <= i < g.len() && 0 <= j < g.len() && i != j ==> seg_disjoint(#[trigger] g[i], #[trigger] g[j])
}

/// Two segments share no page.
pub open spec fn seg_disjoint(a: Segment, b: Segment) -> bool {
    a.start_vpn == a.end_vpn || b.start_vpn == b.end_vpn || a.end_vpn <= b.start_vpn || b.end_vpn
        <= a.start_vpn
}

/// Number of pages of all segments.
pub open spec fn total_pages(g: Seq<Segment>) -> int
    decreases g.len(),
{
    if g.len() == 0 {
        0
    } else {
        total_pages(g.drop_last()) + g.last().end_vpn - g.last().start_vpn
    }
}

/// `areas` lays out exactly the segments `g`, in order.
pub open spec fn has_layout(areas: Seq<AreaView>, g: Seq<Segment>) -> bool {
    &&& areas.len() == g.len()
    &&& forall|i: int|
        0 <= i < g.len() ==> (#[trigger] areas[i]).start == g[i].start_vpn && areas[i].end
            == g[i].end_vpn && areas[i].perm == g[i].perm
}

/// Segments with the layout of `areas`.
pub open spec fn layout_of(areas: Seq<AreaView>) -> Seq<Segment> {
    areas.map_values(|a: AreaView| Segment { start_vpn: a.start, end_vpn: a.end, perm: a.perm })
}

/// Whether the segments are valid and their pages fit in `nfree` frames.
pub fn image_fits(g: &Vec<Segment>, nfree: usize) -> (r: bool)
    ensures
        r == (segments_ok(g@) && total_pages(g@) <= nfree),
{
    let n = g.len();
    let mut total: usize = 0;
    let mut i: usize = 0;
    while i < n
        invariant
            n == g@.len(),
            i <= n,
            total <= nfree,
            total == total_pages(g@.subrange(0, i as int)),
            forall|a: int| 0 <= a < i ==> (#[trigger] g@[a]).start_vpn <= g@[a].end_vpn,
            forall|a: int, b: int|
                0 <= a < i && 0 <= b < n && a != b ==> seg_disjoint(#[trigger] g@[a], #[trigger] g@[b]),
        decreases n - i,
    {
        let s = g[i];
        assert(g@.subrange(0, i + 1).drop_last() =~= g@.subrange(0, i as int));
        if s.start_vpn > s.end_vpn {
            return false;
        }
        let mut j: usize = 0;
        while j < n
            invariant
                n == g@.len(),
                i < n,
                j <= n,
                s == g@[i as int],
                forall|b: int| 0 <= b < j && b != i ==> seg_disjoint(g@[i as int], #[trigger] g@[b]),
            decreases n - j,
        {
            let o = g[j];
            if j != i && !(s.start_vpn == s.end_vpn || o.start_vpn == o.end_vpn
                || s.end_vpn <= o.start_vpn || o.end_vpn <= s.start_vpn) {
                assert(!seg_disjoint(g@[i as int], g@[j as int]));
                return false;
            }
            j = j + 1;
        }
        let pages = s.end_vpn - s.start_vpn;
        if pages > nfree - total {
            proof {
                if segments_ok(g@) {
                    lemma_total_pages_mono(g@, i as int + 1, n as int);
                    assert(g@.subrange(0, n as int) =~= g@);
                }
            }
            return false;
        }
        total = total + pages;
        i = i + 1;
        proof {
            assert forall|a: int, b: int|
                0 <= a < i && 0 <= b < n && a != b implies seg_disjoint(#[trigger] g@[a], #[trigger] g@[b]) by {
                if a == i - 1 {
                }
            }
        }
    }
    assert(g@.subrange(0, n as int) =~= g@);
    true
}

proof fn lemma_total_pages_mono(g: Seq<Segment>, i: int, j: int)
    requires
        0 <= i <= j <= g.len(),
        forall|a: int| 0 <= a < g.len() ==> (#[trigger] g[a]).start_vpn <= g[a].end_vpn,
    ensures
        0 <= total_pages(g.subrange(0, i)) <= total_pages(g.subrange(0, j)),
    decreases j,
{
    if j > 0 {
        assert(g.subrange(0, j).drop_last() =~= g.subrange(0, j - 1));
        assert(g.subrange(0, j).last() == g[j - 1]);
        if i < j {
            lemma_total_pages_mono(g, i, j - 1);
        } else {
            lemma_total_pages_mono(g, 0, j - 1);
            assert(g.subrange(0, 0).len() == 0);
        }
    } else {
        assert(g.subrange(0, 0).len() == 0);
    }
}

/// Builds an address space with the layout `g`, each page backed by a zeroed
/// frame taken from the end of the free list.
fn build_memory_set(k: &mut Kernel, g: &Vec<Segment>) -> (ms: MemorySet)
    requires
        old(k).wf(),
        segments_ok(g@),
        total_pages(g@) <= old(k).free_frames@.len(),
    ensures
        final(k).wf(),
        ms.wf(),
        has_layout(ms@, g@),
        frames_below(ms@, final(k).nframes as int),
        final(k).free_frames@ == old(k).free_frames@.subrange(
            0,
            old(k).free_frames@.len() - total_pages(g@),
        ),
        final(k).tasks == old(k).tasks,
        final(k).current == old(k).current,
        final(k).manager == old(k).manager,
        final(k).nframes == old(k).nframes,
{
    let mut ms = MemorySet::new_bare();
    let n = g.len();
    let mut i: usize = 0;
    let ghost k0 = *k;
    proof {
        lemma_total_pages_mono(g@, 0, n as int);
        assert(g@.subrange(0, n as int) =~= g@);
        assert(g@.subrange(0, 0) =~= Seq::<Segment>::empty());
        assert(k0.free_frames@.subrange(0, k0.free_frames@.len() as int) =~= k0.free_frames@);
    }
    while i < n
        invariant
            n == g@.len(),
            i <= n,
            segments_ok(g@),
            total_pages(g@) <= k0.free_frames@.len(),
            k.wf(),
            ms.wf(),
            has_layout(ms@, g@.subrange(0, i as int)),
            frames_below(ms@, k.nframes as int),
            k.free_frames@ == k0.free_frames@.subrange(
                0,
                k0.free_frames@.len() - total_pages(g@.subrange(0, i as int)),
            ),
            k.tasks == k0.tasks,
            k.current == k0.current,
            k.manager == k0.manager,
            k.nframes == k0.nframes,
        decreases n - i,
    {
        let s = g[i];
        proof {
            assert(g@.subrange(0, i + 1).drop_last() =~= g@.subrange(0, i as int));
            lemma_total_pages_mono(g@, i as int, i + 1);
            lemma_total_pages_mono(g@, i + 1, n as int);
            assert(g@.subrange(0, n as int) =~= g@);
        }
        let pages = s.end_vpn - s.start_vpn;
        let at = k.free_frames.len() - pages;
        let ghost fl = k.free_frames@;
        let frames = k.free_frames.split_off(at);
        assert(forall|x: int| 0 <= x < frames@.len() ==> #[trigger] frames@[x] == fl[at + x]);
        zero_frames(&mut k.mem, &frames, k.nframes);
        proof {
            assert(k.free_frames@ =~= k0.free_frames@.subrange(
                0,
                k0.free_frames@.len() - total_pages(g@.subrange(0, i + 1)),
            ));
            assert forall|v: int| s.start_vpn <= v < s.end_vpn implies !vpn_mapped(ms@, v) by {
                if vpn_mapped(ms@, v) {
                    let c = choose|c: int| 0 <= c < ms@.len() && covers(#[trigger] ms@[c], v);
                    assert(seg_disjoint(g@[c], g@[i as int]));
                }
            }
        }
        let ghost before = ms@;
        ms.insert_framed_area(s.start_vpn, s.end_vpn, s.perm, frames);
        proof {
            assert forall|a: int, x: int|
                0 <= a < ms@.len() && 0 <= x < ms@[a].frames.len() implies #[trigger] ms@[a].frames[x]
                < k.nframes by {
                if a < before.len() {
                    assert(ms@[a] == before[a]);
                }
            }
        }
        i = i + 1;
        proof {
            assert forall|a: int| 0 <= a < i implies (#[trigger] ms@[a]).start == g@.subrange(0, i as int)[a].start_vpn
                && ms@[a].end == g@.subrange(0, i as int)[a].end_vpn && ms@[a].perm == g@.subrange(0, i as int)[a].perm by {
                if a < i - 1 {
                    assert(ms@[a] == before[a]);
                }
            }
        }
    }
    assert(g@.subrange(0, n as int) =~= g@);
    ms
}

/// Replaces the running task's address space with a fresh one laid out as
/// `image` (same task id); the old frames go back to the free list and the
/// program break restarts at the image's heap bottom. Returns 0, or -1 with
/// nothing changed when there is no such program (`None`), its segments
/// overlap, or too few frames are free.
pub fn sys_exec(k: &mut Kernel, image: Option<&ProgramImage>) -> (r: isize)
    requires
        old(k).wf(),
    ensures
        final(k).wf(),
        r == 0 || r == -1,
        r == 0 <==> (image matches Some(img) && segments_ok(img.segments@) && total_pages(
            img.segments@,
        ) <= old(k).free_frames@.len()),
        r == -1 ==> *final(k) == *old(k),
        r == 0 ==> {
            let img = image->0;
            &&& final(k).current == old(k).current
            &&& final(k).cur().pid == old(k).cur().pid
            &&& has_layout(final(k).cur().memory_set@, img.segments@)
            &&& final(k).cur().heap_bottom == img.heap_bottom
            &&& final(k).cur().program_brk == img.heap_bottom
            &&& final(k).free_frames@ == old(k).free_frames@.subrange(
                0,
                old(k).free_frames@.len() - total_pages(img.segments@),
            ) + all_frames(old(k).cur().memory_set@)
        },
{
    let img = match image {
        None => { return -1; },
        Some(img) => img,
    };
    if !image_fits(&img.segments, k.free_frames.len()) {
        return -1;
    }
    let ghost k0 = *k;
    let mut ms = build_memory_set(k, &img.segments);
    let ghost k1 = *k;
    let mut t = k.take_current();
    std::mem::swap(&mut ms, &mut t.memory_set);
    release_frames(&mut k.free_frames, ms, k.nframes);
    t.heap_bottom = img.heap_bottom;
    t.program_brk = img.heap_bottom;
    k.put_current(t);
    proof {
        assert forall|i: int|
            0 <= i < k.tasks@.len() implies (#[trigger] k.tasks@[i] matches Some(t) ==> {
                &&& t.pid == i
                &&& t.wf()
                &&& frames_below(t.memory_set@, k.nframes as int)
            }) by {
            if i != k.current as int {
                assert(k.tasks@[i] == k0.tasks@[i]);
            }
        }
    }
    0
}

/// Adds a ready child of the running task with id `tasks.len()`, address
/// space `ms`, and the given heap and file table.
fn add_child(
    k: &mut Kernel,
    ms: MemorySet,
    heap_bottom: usize,
    program_brk: usize,
    fd_table: Vec<Option<crate::task::FileHandle>>,
) -> (pid: usize)
    requires
        heap_bottom <= program_brk,
        old(k).wf(),
        old(k).tasks@.len() < isize::MAX,
        ms.wf(),
        frames_below(ms@, old(k).nframes as int),
    ensures
        final(k).wf(),
        pid == old(k).tasks@.len(),
        final(k).tasks@.len() == pid + 1,
        final(k).current == old(k).current,
        final(k).cur().children@ == old(k).cur().children@.push(pid),
        final(k).cur().memory_set == old(k).cur().memory_set,
        final(k).tasks@[pid as int] matches Some(c) && {
            &&& c.pid == pid
            &&& c.parent == Some(old(k).current)
            &&& c.task_status == TaskStatus::Ready
            &&& c.pass == 0
            &&& c.memory_set@ == ms@
            &&& c.fd_table@ == fd_table@
            &&& c.heap_bottom == heap_bottom
            &&& c.program_brk == program_brk
        },
        forall|i: int|
            0 <= i < old(k).tasks@.len() && i != old(k).current ==> final(k).tasks@[i] == old(k).tasks@[i],
        final(k).manager.ready@ == old(k).manager.ready@.push(
            SchedEntry { pid, pass: 0, stride: final(k).tasks@[pid as int]->0.stride },
        ),
        final(k).free_frames == old(k).free_frames,
        final(k).nframes == old(k).nframes,
        final(k).mem == old(k).mem,
{
    let ghost k0 = *k;
    let pid = k.tasks.len();
    let mut c = TaskControlBlock::new(pid);
    c.parent = Some(k.current);
    c.task_status = TaskStatus::Ready;
    c.memory_set = ms;
    c.heap_bottom = heap_bottom;
    c.program_brk = program_brk;
    c.fd_table = fd_table;
    let entry = SchedEntry { pid, pass: 0, stride: c.stride };
    let mut t = k.take_current();
    t.children.push(pid);
    k.put_current(t);
    k.tasks.push(Some(c));
    k.manager.add(entry);
    proof {
        assert forall|i: int|
            0 <= i < k.tasks@.len() implies (#[trigger] k.tasks@[i] matches Some(t) ==> {
                &&& t.pid == i
                &&& t.wf()
                &&& frames_below(t.memory_set@, k.nframes as int)
            }) by {
            if i != k.current as int && i != pid as int {
                assert(k.tasks@[i] == k0.tasks@[i]);
            }
        }
        let pool = k.manager.ready@;
        assert forall|a: int, b: int|
            0 <= a < pool.len() && 0 <= b < pool.len() && a != b implies (#[trigger] pool[a]).pid
            != (#[trigger] pool[b]).pid by {
            if a < pool.len() - 1 {
                assert(pool[a] == k0.manager.ready@[a]);
            }
            if b < pool.len() - 1 {
                assert(pool[b] == k0.manager.ready@[b]);
            }
        }
        assert forall|j: int| 0 <= j < pool.len() implies {
            &&& (#[trigger] pool[j]).pid != k.current
            &&& pool[j].pid < k.tasks@.len()
            &&& k.tasks@[pool[j].pid as int] matches Some(t) && t.task_status == TaskStatus::Ready
        } by {
            if j < pool.len() - 1 {
                assert(pool[j] == k0.manager.ready@[j]);
                let q = pool[j].pid as int;
                assert(k0.tasks@[q] matches Some(t) && t.task_status == TaskStatus::Ready);
                assert(k.tasks@[q] == k0.tasks@[q]);
            }
        }
    }
    pid
}

/// Starts a new child of the running task running `image`, in a fresh
/// address space. Returns the child's id, or -1 with nothing changed when
/// there is no such program, its segments overlap, too few frames are free,
/// or task ids are exhausted.
pub fn sys_spawn(k: &mut Kernel, image: Option<&ProgramImage>) -> (r: isize)
    requires
        old(k).wf(),
    ensures
        final(k).wf(),
        r >= 0 <==> (image matches Some(img) && segments_ok(img.segments@) && total_pages(
            img.segments@,
        ) <= old(k).free_frames@.len() && old(k).tasks@.len() < isize::MAX),
        r < 0 ==> r == -1 && *final(k) == *old(k),
        r >= 0 ==> {
            let img = image->0;
            &&& r == old(k).tasks@.len()
            &&& final(k).current == old(k).current
            &&& final(k).cur().children@ == old(k).cur().children@.push(r as usize)
            &&& final(k).tasks@[r as int] matches Some(c) && {
                &&& c.parent == Some(old(k).current)
                &&& c.task_status == TaskStatus::Ready
                &&& has_layout(c.memory_set@, img.segments@)
                &&& c.program_brk == img.heap_bottom
            }
        },
{
    let img = match image {
        None => { return -1; },
        Some(img) => img,
    };
    if k.tasks.len() >= isize::MAX as usize {
        return -1;
    }
    if !image_fits(&img.segments, k.free_frames.len()) {
        return -1;
    }
    let ms = build_memory_set(k, &img.segments);
    let pid = add_child(k, ms, img.heap_bottom, img.heap_bottom, Vec::new());
    pid as isize
}

/// Copies frame `src` onto frame `dst`.
fn copy_frame(mem: &mut Vec<u8>, src: usize, dst: usize)
    requires
        (src + 1) * PAGE_SIZE <= old(mem)@.len(),
        (dst + 1) * PAGE_SIZE <= old(mem)@.len(),
    ensures
        final(mem)@.len() == old(mem)@.len(),
{
    let n0 = mem.len();
    assert(src * PAGE_SIZE <= (src + 1) * PAGE_SIZE) by (nonlinear_arith);
    assert(dst * PAGE_SIZE <= (dst + 1) * PAGE_SIZE) by (nonlinear_arith);
    let s = src * PAGE_SIZE;
    let d = dst * PAGE_SIZE;
    let mut j: usize = 0;
    while j < PAGE_SIZE
        invariant
            s + PAGE_SIZE <= mem@.len(),
            d + PAGE_SIZE <= mem@.len(),
            mem@.len() == old(mem)@.len(),
            mem@.len() == n0,
            j <= PAGE_SIZE,
        decreases PAGE_SIZE - j,
    {
        let b = mem[s + j];
        mem.set(d + j, b);
        j = j + 1;
    }
}

/// Duplicates the running task: the child gets an address space with the
/// same areas (bounds and rights) backed by fresh frames holding copies of
/// the parent's pages, the same file table and heap, and a fresh pass.
/// Returns the child's id, or -1 with nothing changed when too few frames
/// are free or task ids are exhausted.
pub fn sys_fork(k: &mut Kernel) -> (r: isize)
    requires
        old(k).wf(),
    ensures
        final(k).wf(),
        r >= 0 <==> (total_pages(layout_of(old(k).cur().memory_set@)) <= old(k).free_frames@.len()
            && old(k).tasks@.len() < isize::MAX),
        r < 0 ==> r == -1 && *final(k) == *old(k),
        r >= 0 ==> {
            &&& r == old(k).tasks@.len()
            &&& final(k).current == old(k).current
            &&& final(k).cur().children@ == old(k).cur().children@.push(r as usize)
            &&& final(k).cur().memory_set@ == old(k).cur().memory_set@
            &&& final(k).tasks@[r as int] matches Some(c) && {
                &&& c.parent == Some(old(k).current)
                &&& c.task_status == TaskStatus::Ready
                &&& c.pass == 0
                &&& has_layout(c.memory_set@, layout_of(old(k).cur().memory_set@))
                &&& c.fd_table@ == old(k).cur().fd_table@
                &&& c.heap_bottom == old(k).cur().heap_bottom
                &&& c.program_brk == old(k).cur().program_brk
            }
        },
{
    if k.tasks.len() >= isize::MAX as usize {
        return -1;
    }
    let ghost k0 = *k;
    let cur = k.current;
    let mut layout: Vec<Segment> = Vec::new();
    let mut fds: Vec<Option<crate::task::FileHandle>> = Vec::new();
    let mut brk: usize = 0;
    let mut bottom: usize = 0;
    match &k.tasks[cur] {
        Some(t) => {
            let n = t.memory_set.areas.len();
            let mut i: usize = 0;
            while i < n
                invariant
                    n == t.memory_set.areas@.len(),
                    i <= n,
                    layout@ == layout_of(t.memory_set@).subrange(0, i as int),
                decreases n - i,
            {
                let a = &t.memory_set.areas[i];
                layout.push(Segment { start_vpn: a.start_vpn, end_vpn: a.end_vpn, perm: a.perm });
                assert(layout@ =~= layout_of(t.memory_set@).subrange(0, i + 1));
                i = i + 1;
            }
            assert(layout_of(t.memory_set@).subrange(0, n as int) =~= layout_of(t.memory_set@));
            let mut j: usize = 0;
            while j < t.fd_table.len()
                invariant
                    j <= t.fd_table@.len(),
                    fds@ == t.fd_table@.subrange(0, j as int),
                decreases t.fd_table@.len() - j,
            {
                fds.push(t.fd_table[j]);
                assert(fds@ =~= t.fd_table@.subrange(0, j + 1));
                j = j + 1;
            }
            assert(fds@ =~= t.fd_table@);
            brk = t.program_brk;
            bottom = t.heap_bottom;
        },
        None => {},
    }
    let ghost parent = k0.cur().memory_set@;
    proof {
        assert forall|i: int| 0 <= i < layout@.len() implies (#[trigger] layout@[i]).start_vpn <= layout@[i].end_vpn by {
            assert(layout@[i].start_vpn == parent[i].start);
        }
        assert forall|i: int, j: int|
            0 <= i < layout@.len() && 0 <= j < layout@.len() && i != j implies seg_disjoint(
            #[trigger] layout@[i],
            #[trigger] layout@[j],
        ) by {
            assert(crate::mm::disjoint(parent[i], parent[j]));
        }
    }
    if !image_fits(&layout, k.free_frames.len()) {
        return -1;
    }
    let ms = build_memory_set(k, &layout);
    let ghost k1 = *k;
    // Copy each page of the parent into the child's frame for it.
    let mut i: usize = 0;
    let na = ms.areas.len();
    while i < na
        invariant
            na == ms.areas@.len(),
            i <= na,
            k.wf(),
            k.tasks == k1.tasks,
            k.current == k1.current,
            k.manager == k1.manager,
            k.free_frames == k1.free_frames,
            k.nframes == k1.nframes,
            k1.cur().memory_set@ == parent,
            cur == k1.current,
            has_layout(ms@, layout@),
            layout@ == layout_of(parent),
            frames_below(ms@, k.nframes as int),
            ms.wf(),
        decreases na - i,
    {
        assert(ms@[i as int].start <= ms@[i as int].end);
        let pages = ms.areas[i].end_vpn - ms.areas[i].start_vpn;
        let mut j: usize = 0;
        while j < pages
            invariant
                k.wf(),
                i < na,
                na == ms.areas@.len(),
                pages == ms@[i as int].end - ms@[i as int].start,
                ms.wf(),
                k.tasks == k1.tasks,
                k.current == k1.current,
                k.manager == k1.manager,
                k.free_frames == k1.free_frames,
                k.nframes == k1.nframes,
                k1.cur().memory_set@ == parent,
                cur == k1.current,
                has_layout(ms@, layout@),
                layout@ == layout_of(parent),
                frames_below(ms@, k.nframes as int),
                j <= pages,
            decreases pages - j,
        {
            proof {
                assert(layout@[i as int].start_vpn == parent[i as int].start);
                assert(layout@[i as int].end_vpn == parent[i as int].end);
                assert(k.tasks@[cur as int] matches Some(t) && t.wf());
                assert(parent[i as int].frames.len() == parent[i as int].end - parent[i as int].start);
            }
            let dst = ms.areas[i].frames[j];
            let src = match &k.tasks[cur] {
                Some(t) => t.memory_set.areas[i].frames[j],
                None => dst,
            };
            proof {
                assert(parent[i as int].frames[j as int] < k.nframes);
                assert(ms@[i as int].frames[j as int] < k.nframes);
            }
            assert((src + 1) * PAGE_SIZE <= k.nframes * PAGE_SIZE) by (nonlinear_arith)
                requires src < k.nframes;
            assert((dst + 1) * PAGE_SIZE <= k.nframes * PAGE_SIZE) by (nonlinear_arith)
                requires dst < k.nframes;
            copy_frame(&mut k.mem, src, dst);
            j = j + 1;
        }
        i = i + 1;
    }
    let pid = add_child(k, ms, bottom, brk, fds);
    pid as isize
}

/// Moves the running task's program break by `size` bytes. Returns the
/// previous break, or -1 with nothing changed when the new break would fall
/// below the heap bottom or past the address space, or the previous break
/// does not fit the result.
pub fn sys_sbrk(k: &mut Kernel, size: i32) -> (r: isize)
    requires
        old(k).wf(),
    ensures
        final(k).wf(),
        ({
            let old_brk = old(k).cur().program_brk as int;
            let new_brk = old_brk + size;
            if old(k).cur().heap_bottom <= new_brk <= usize::MAX && old_brk <= isize::MAX {
                &&& r == old_brk
                &&& final(k).current == old(k).current
                &&& final(k).cur().program_brk == new_brk
                &&& final(k).cur().memory_set == old(k).cur().memory_set
            } else {
                r == -1 && *final(k) == *old(k)
            }
        }),
{
    let cur = k.current;
    let (bottom, brk) = match &k.tasks[cur] {
        Some(t) => (t.heap_bottom, t.program_brk),
        None => (0, 0),
    };
    if brk > isize::MAX as usize {
        return -1;
    }
    let new_brk: usize = if size < 0 {
        let dec = (-(size as i64)) as usize;
        if dec > brk || brk - dec < bottom {
            return -1;
        }
        brk - dec
    } else {
        let inc = size as usize;
        if inc > usize::MAX - brk {
            return -1;
        }
        brk + inc
    };
    if new_brk < bottom {
        return -1;
    }
    let ghost k0 = *k;
    let mut t = k.take_current();
    t.program_brk = new_brk;
    k.put_current(t);
    proof {
        assert forall|i: int|
            0 <= i < k.tasks@.len() implies (#[trigger] k.tasks@[i] matches Some(t) ==> {
                &&& t.pid == i
                &&& t.wf()
                &&& frames_below(t.memory_set@, k.nframes as int)
            }) by {
            if i != k.current as int {
                assert(k.tasks@[i] == k0.tasks@[i]);
            }
        }
    }
    brk as isize
}

/// Wall time as seconds and microseconds.
#[derive(Clone, Copy, PartialEq, Eq, Structural, Debug)]
pub struct TimeVal {
    pub sec: u64,
    pub usec: u64,
}

/// Layout of a `TimeVal` in user memory: two little-endian 8-byte words.
pub open spec fn timeval_bytes(tv: TimeVal) -> Seq<u8> {
    le_bytes(tv.sec as nat, 8) + le_bytes(tv.usec as nat, 8)
}

impl TimeVal {
    /// Splits a time in microseconds into seconds and microseconds.
    pub fn from_us(us: u64) -> (tv: TimeVal)
        ensures
            tv.sec == us / 1_000_000,
            tv.usec == us % 1_000_000,
    {
        TimeVal { sec: us / 1_000_000, usec: us % 1_000_000 }
    }

    /// The record as it is laid out in user memory.
    pub fn to_bytes(&self) -> (b: Vec<u8>)
        ensures
            b@ == timeval_bytes(*self),
    {
        let mut b: Vec<u8> = Vec::new();
        push_le(&mut b, self.sec, 8);
        push_le(&mut b, self.usec, 8);
        assert(b@ =~= timeval_bytes(*self));
        b
    }
}

/// Writes the time `now_us` (microseconds since boot) as a `TimeVal` to user
/// address `ts`. Returns 0, or -1 with nothing changed when the 16 bytes at
/// `ts` are not writable by the running task.
pub fn sys_get_time(k: &mut Kernel, ts: usize, now_us: u64) -> (r: isize)
    requires
        old(k).wf(),
    ensures
        final(k).wf(),
        ({
            let tv = TimeVal { sec: now_us / 1_000_000, usec: now_us % 1_000_000 };
            if ts + 16 <= usize::MAX && range_accessible(old(k).cur().memory_set@, ts as int, 16, true) {
                r == 0 && user_write(*old(k), ts, timeval_bytes(tv), final(k).mem@)
                    && final(k).tasks == old(k).tasks
            } else {
                r == -1 && *final(k) == *old(k)
            }
        }),
{
    let tv = TimeVal::from_us(now_us);
    let bytes = tv.to_bytes();
    proof {
        crate::encode::lemma_le_bytes_len(tv.sec as nat, 8);
        crate::encode::lemma_le_bytes_len(tv.usec as nat, 8);
    }
    if copy_to_user(k, ts, &bytes) {
        0
    } else {
        -1
    }
}

/// Milliseconds a task has run, from its start time to `now` (0 if `now`
/// is earlier).
pub fn calculate_runtime(start_time: usize, now: usize) -> (r: usize)
    ensures
        r == if now >= start_time { now - start_time } else { 0 },
{
    if now >= start_time {
        now - start_time
    } else {
        0
    }
}

/// Numeric code of a task status in user-visible records.
pub open spec fn status_code(s: TaskStatus) -> nat {
    match s {
        TaskStatus::UnInit => 0,
        TaskStatus::Ready => 1,
        TaskStatus::Running => 2,
        TaskStatus::Blocked => 3,
        TaskStatus::Zombie => 4,
    }
}

fn status_to_code(s: TaskStatus) -> (c: u64)
    ensures
        c == status_code(s),
{
    match s {
        TaskStatus::UnInit => 0,
        TaskStatus::Ready => 1,
        TaskStatus::Running => 2,
        TaskStatus::Blocked => 3,
        TaskStatus::Zombie => 4,
    }
}

/// Accounting snapshot of a task.
pub struct TaskInfo {
    pub status: TaskStatus,
    pub syscall_times: Vec<u32>,
    pub time: usize,
}

/// Encodings of the counters `c`, one 4-byte little-endian word each.
pub open spec fn counters_bytes(c: Seq<u32>) -> Seq<u8>
    decreases c.len(),
{
    if c.len() == 0 {
        Seq::empty()
    } else {
        counters_bytes(c.drop_last()) + le_bytes(c.last() as nat, 4)
    }
}

/// Layout of a `TaskInfo` in user memory: the status code as a 4-byte
/// word, the counters, 4 bytes of padding, and the run time as an 8-byte
/// word, all little-endian.
pub open spec fn task_info_bytes(ti: TaskInfo) -> Seq<u8> {
    le_bytes(status_code(ti.status), 4) + counters_bytes(ti.syscall_times@) + le_bytes(0, 4)
        + le_bytes(ti.time as nat, 8)
}

proof fn lemma_counters_bytes_len(c: Seq<u32>)
    ensures
        counters_bytes(c).len() == 4 * c.len(),
    decreases c.len(),
{
    if c.len() > 0 {
        lemma_counters_bytes_len(c.drop_last());
        crate::encode::lemma_le_bytes_len(c.last() as nat, 4);
    }
}

impl TaskInfo {
    /// The record as it is laid out in user memory.
    pub fn to_bytes(&self) -> (b: Vec<u8>)
        ensures
            b@ == task_info_bytes(*self),
            b@.len() == 16 + 4 * self.syscall_times@.len(),
    {
        let mut b: Vec<u8> = Vec::new();
        push_le(&mut b, status_to_code(self.status), 4);
        let n = self.syscall_times.len();
        let mut i: usize = 0;
        while i < n
            invariant
                n == self.syscall_times@.len(),
                i <= n,
                b@ == le_bytes(status_code(self.status), 4) + counters_bytes(
                    self.syscall_times@.subrange(0, i as int),
                ),
            decreases n - i,
        {
            let ghost before = b@;
            push_le(&mut b, self.syscall_times[i] as u64, 4);
            proof {
                let c = self.syscall_times@.subrange(0, i + 1);
                assert(c.drop_last() =~= self.syscall_times@.subrange(0, i as int));
                assert(c.last() == self.syscall_times@[i as int]);
                assert(b@ =~= le_bytes(status_code(self.status), 4) + counters_bytes(c));
            }
            i = i + 1;
        }
        assert(self.syscall_times@.subrange(0, n as int) =~= self.syscall_times@);
        push_le(&mut b, 0, 4);
        push_le(&mut b, self.time as u64, 8);
        proof {
            assert(b@ =~= task_info_bytes(*self));
            crate::encode::lemma_le_bytes_len(status_code(self.status), 4);
            crate::encode::lemma_le_bytes_len(0, 4);
            crate::encode::lemma_le_bytes_len(self.time as nat, 8);
            lemma_counters_bytes_len(self.syscall_times@);
        }
        b
    }
}

/// Writes the running task's accounting snapshot (status, syscall counters,
/// and run time up to `now_ms`) as a `TaskInfo` to user address `ti`.
/// Returns 0, or -1 with nothing changed when `ti` is null or its bytes are
/// not writable by the running task.
pub fn sys_task_info(k: &mut Kernel, ti: usize, now_ms: usize) -> (r: isize)
    requires
        old(k).wf(),
    ensures
        final(k).wf(),
        ({
            let t = old(k).cur();
            let info = TaskInfo {
                status: t.task_status,
                syscall_times: t.syscall_count,
                time: if now_ms >= t.start_time { (now_ms - t.start_time) as usize } else { 0 },
            };
            let bytes = task_info_bytes(info);
            if ti != 0 && ti + bytes.len() <= usize::MAX && range_accessible(
                t.memory_set@,
                ti as int,
                bytes.len() as int,
                true,
            ) {
                r == 0 && user_write(*old(k), ti, bytes, final(k).mem@) && final(k).tasks == old(k).tasks
            } else {
                r == -1 && *final(k) == *old(k)
            }
        }),
{
    if ti == 0 {
        return -1;
    }
    let cur = k.current;
    let info = match &k.tasks[cur] {
        Some(t) => TaskInfo {
            status: t.task_status,
            syscall_times: copy_counts(&t.syscall_count),
            time: calculate_runtime(t.start_time, now_ms),
        },
        None => TaskInfo { status: TaskStatus::UnInit, syscall_times: Vec::new(), time: 0 },
    };
    let bytes = info.to_bytes();
    if copy_to_user(k, ti, &bytes) {
        0
    } else {
        -1
    }
}

fn copy_counts(v: &Vec<u32>) -> (r: Vec<u32>)
    ensures
        r@ == v@,
{
    let mut r: Vec<u32> = Vec::new();
    let mut i: usize = 0;
    while i < v.len()
        invariant
            i <= v@.len(),
            r@ == v@.subrange(0, i as int),
        decreases v@.len() - i,
    {
        r.push(v[i]);
        i = i + 1;
    }
    assert(r@ =~= v@);
    r
}

} // verus!
