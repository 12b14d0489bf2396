//! Task control blocks.
use vstd::prelude::*;
use crate::config::{BIG_STRIDE, MAX_SYSCALL_NUM};
use crate::mm::MemorySet;

verus! {

/// Lifecycle state of a task.
#[derive(Clone, Copy, PartialEq, Eq, Structural, Debug)]
pub enum TaskStatus {
    UnInit,
    Ready,
    Running,
    Blocked,
    Zombie,
}

/// An open file as the task sees it: which file object, and the rights the
/// descriptor was opened with.
#[derive(Clone, Copy, PartialEq, Eq, Structural, Debug)]
pub struct FileHandle {
    pub file: usize,
    pub readable: bool,
    pub writable: bool,
}

/// The kernel's record of one task.
pub struct TaskControlBlock {
    pub pid: usize,
    pub parent: Option<usize>,
    pub task_status: TaskStatus,
    /// Time (in milliseconds) at which the task first ran.
    pub start_time: usize,
    /// Invocations of each syscall id below `MAX_SYSCALL_NUM`.
    pub syscall_count: Vec<u32>,
    pub priority: u64,
    pub stride: u64,
    pub pass: u64,
    pub memory_set: MemorySet,
    /// Lowest address of the heap and current program break.
    pub heap_bottom: usize,
    pub program_brk: usize,
    pub children: Vec<usize>,
    pub exit_code: i32,
    pub fd_table: Vec<Option<FileHandle>>,
}

/// Default priority of a new task.
pub const DEFAULT_PRIORITY: u64 = 16;

impl TaskControlBlock {
    /// Well-formed: one counter per syscall id, a valid stride and address
    /// space, and a heap that does not run below its bottom.
    pub open spec fn wf(&self) -> bool {
        &&& self.syscall_count@.len() == MAX_SYSCALL_NUM
        &&& self.priority >= 2
        &&& self.stride == BIG_STRIDE / self.priority
        &&& self.memory_set.wf()
        &&& self.heap_bottom <= self.program_brk
    }

    /// A task with id `pid`, not yet initialized, with an empty address space,
    /// zeroed counters and the default priority.
    pub fn new(pid: usize) -> (r: Self)
        ensures
            r.wf(),
            r.pid == pid,
            r.parent is None,
            r.task_status == TaskStatus::UnInit,
            r.start_time == 0,
            forall|i: int| 0 <= i < MAX_SYSCALL_NUM ==> r.syscall_count@[i] == 0,
            r.priority == DEFAULT_PRIORITY,
            r.pass == 0,
            r.memory_set@.len() == 0,
            r.children@.len() == 0,
            r.fd_table@.len() == 0,
    {
        TaskControlBlock {
            pid,
            parent: None,
            task_status: TaskStatus::UnInit,
            start_time: 0,
            syscall_count: vec![0u32; MAX_SYSCALL_NUM],
            priority: DEFAULT_PRIORITY,
            stride: BIG_STRIDE / DEFAULT_PRIORITY,
            pass: 0,
            memory_set: MemorySet::new_bare(),
            heap_bottom: 0,
            program_brk: 0,
            children: Vec::new(),
            exit_code: 0,
            fd_table: Vec::new(),
        }
    }

    /// Counts one invocation of syscall `syscall_id`; ids out of range are
    /// ignored, and a counter stops at its maximum.
    pub fn increment_syscall_count(&mut self, syscall_id: usize)
        requires
            old(self).wf(),
        ensures
            final(self).wf(),
            final(self).syscall_count@ == if syscall_id < MAX_SYSCALL_NUM
                && old(self).syscall_count@[syscall_id as int] < u32::MAX {
                old(self).syscall_count@.update(
                    syscall_id as int,
                    (old(self).syscall_count@[syscall_id as int] + 1) as u32,
                )
            } else {
                old(self).syscall_count@
            },
            final(self).pid == old(self).pid,
            final(self).task_status == old(self).task_status,
            final(self).pass == old(self).pass,
    {
        if syscall_id < MAX_SYSCALL_NUM && self.syscall_count[syscall_id] < u32::MAX {
            let c = self.syscall_count[syscall_id];
            self.syscall_count.set(syscall_id, c + 1);
        }
    }

    /// Sets the priority and recomputes the stride; a task that has never
    /// been given a pass starts from its stride.
    pub fn set_priority(&mut self, prio: u64)
        requires
            old(self).wf(),
            prio >= 2,
        ensures
            final(self).wf(),
            final(self).priority == prio,
            final(self).stride == BIG_STRIDE / prio,
            final(self).pass == if old(self).pass == 0 { BIG_STRIDE / prio } else { old(self).pass },
            final(self).pid == old(self).pid,
            final(self).task_status == old(self).task_status,
            final(self).memory_set@ == old(self).memory_set@,
    {
        self.priority = prio;
        self.stride = BIG_STRIDE / prio;
        if self.pass == 0 {
            self.pass = self.stride;
        }
    }
}

} // verus!
