//! File-descriptor syscalls. File objects live in the file system, outside
//! this crate: the kernel checks descriptors and rights and turns user
//! buffers into physical pieces, and hands the transfer itself to the caller.
use vstd::prelude::*;
use crate::encode::{le_bytes, push_le};
use crate::mm::{bridge_pieces_ok, range_accessible, translated_byte_buffer, PhysRange};
use crate::process::{copy_to_user, frames_below, user_write, Kernel};
use crate::task::FileHandle;

verus! {

/// A transfer the file system is to perform: which file object, and the
/// physical pieces of the user buffer, in order.
pub struct FileIo {
    pub file: usize,
    pub ranges: Vec<PhysRange>,
}

/// Handle behind descriptor `fd` of the running task.
pub open spec fn handle_of(k: Kernel, fd: usize) -> Option<FileHandle> {
    if fd < k.cur().fd_table@.len() {
        k.cur().fd_table@[fd as int]
    } else {
        None
    }
}

fn lookup_fd(k: &Kernel, fd: usize) -> (h: Option<FileHandle>)
    requires
        k.wf(),
    ensures
        h == handle_of(*k, fd),
{
    match &k.tasks[k.current] {
        Some(t) => if fd < t.fd_table.len() {
            t.fd_table[fd]
        } else {
            None
        },
        None => None,
    }
}

/// Prepares a write of the `len` bytes at user address `buf` to descriptor
/// `fd`. `None` (the syscall's -1) when `fd` is not open for writing or the
/// buffer is not readable by the running task.
pub fn sys_write(k: &Kernel, fd: usize, buf: usize, len: usize) -> (r: Option<FileIo>)
    requires
        k.wf(),
    ensures
        r is Some <==> (handle_of(*k, fd) matches Some(h) && h.writable && buf + len <= usize::MAX
            && range_accessible(k.cur().memory_set@, buf as int, len as int, false)),
        r matches Some(io) ==> io.file == handle_of(*k, fd)->0.file && bridge_pieces_ok(
            k.cur().memory_set@,
            buf as int,
            len as int,
            io.ranges@,
        ),
{
    let h = match lookup_fd(k, fd) {
        Some(h) => h,
        None => { return None; },
    };
    if !h.writable || len > usize::MAX - buf {
        return None;
    }
    let ranges = match &k.tasks[k.current] {
        Some(t) => translated_byte_buffer(&t.memory_set, buf, len, false),
        None => None,
    };
    match ranges {
        Some(ranges) => Some(FileIo { file: h.file, ranges }),
        None => None,
    }
}

/// Prepares a read of up to `len` bytes from descriptor `fd` into user
/// address `buf`. `None` (the syscall's -1) when `fd` is not open for
/// reading or the buffer is not writable by the running task.
pub fn sys_read(k: &Kernel, fd: usize, buf: usize, len: usize) -> (r: Option<FileIo>)
    requires
        k.wf(),
    ensures
        r is Some <==> (handle_of(*k, fd) matches Some(h) && h.readable && buf + len <= usize::MAX
            && range_accessible(k.cur().memory_set@, buf as int, len as int, true)),
        r matches Some(io) ==> io.file == handle_of(*k, fd)->0.file && bridge_pieces_ok(
            k.cur().memory_set@,
            buf as int,
            len as int,
            io.ranges@,
        ),
{
    let h = match lookup_fd(k, fd) {
        Some(h) => h,
        None => { return None; },
    };
    if !h.readable || len > usize::MAX - buf {
        return None;
    }
    let ranges = match &k.tasks[k.current] {
        Some(t) => translated_byte_buffer(&t.memory_set, buf, len, true),
        None => None,
    };
    match ranges {
        Some(ranges) => Some(FileIo { file: h.file, ranges }),
        None => None,
    }
}

/// Lowest free descriptor of a file table (its length when all are taken).
pub open spec fn lowest_free_fd(t: Seq<Option<FileHandle>>) -> int {
    if exists|i: int| 0 <= i < t.len() && t[i] is None {
        choose|i: int| 0 <= i < t.len() && t[i] is None && forall|j: int| 0 <= j < i ==> t[j] is Some
    } else {
        t.len() as int
    }
}

proof fn lemma_lowest_free(t: Seq<Option<FileHandle>>, i: int)
    requires
        0 <= i < t.len(),
        t[i] is None,
        forall|j: int| 0 <= j < i ==> t[j] is Some,
    ensures
        lowest_free_fd(t) == i,
{
    let c = choose|c: int| 0 <= c < t.len() && t[c] is None && forall|j: int| 0 <= j < c ==> t[j] is Some;
    assert(0 <= c < t.len() && t[c] is None && forall|j: int| 0 <= j < c ==> t[j] is Some);
    if c < i {
        assert(t[c] is Some);
    } else if i < c {
        assert(t[i] is Some);
    }
}

/// Installs `file` (the file system's answer to an open request; `None`
/// when it found nothing) in the lowest free descriptor of the running task.
/// Returns the descriptor, or -1 with nothing changed.
pub fn sys_open(k: &mut Kernel, file: Option<FileHandle>) -> (r: isize)
    requires
        old(k).wf(),
    ensures
        final(k).wf(),
        file is None ==> r == -1 && *final(k) == *old(k),
        file matches Some(h) ==> {
            let t = old(k).cur().fd_table@;
            let fd = lowest_free_fd(t);
            if fd <= isize::MAX {
                &&& r == fd
                &&& final(k).current == old(k).current
                &&& final(k).cur().fd_table@ == if fd < t.len() {
                    t.update(fd, Some(h))
                } else {
                    t.push(Some(h))
                }
            } else {
                r == -1 && *final(k) == *old(k)
            }
        },
{
    let h = match file {
        None => { return -1; },
        Some(h) => h,
    };
    let ghost k0 = *k;
    let (i, n) = match &k.tasks[k.current] {
        Some(t) => {
            let n = t.fd_table.len();
            let mut i: usize = 0;
            while i < n && t.fd_table[i].is_some()
                invariant
                    n == t.fd_table@.len(),
                    i <= n,
                    forall|j: int| 0 <= j < i ==> t.fd_table@[j] is Some,
                decreases n - i,
            {
                i = i + 1;
            }
            proof {
                if i < n {
                    lemma_lowest_free(t.fd_table@, i as int);
                } else {
                    assert(!(exists|j: int| 0 <= j < n && t.fd_table@[j] is None));
                }
            }
            (i, n)
        },
        None => (0, 0),
    };
    if i > isize::MAX as usize {
        return -1;
    }
    let mut t = k.take_current();
    if i < n {
        t.fd_table.set(i, Some(h));
    } else {
        t.fd_table.push(Some(h));
    }
    k.put_current(t);
    proof {
        assert forall|j: int|
            0 <= j < k.tasks@.len() implies (#[trigger] k.tasks@[j] matches Some(t) ==> {
                &&& t.pid == j
                &&& t.wf()
                &&& frames_below(t.memory_set@, k.nframes as int)
            }) by {
            if j != k.current as int {
                assert(k.tasks@[j] == k0.tasks@[j]);
            }
        }
    }
    i as isize
}

/// Closes descriptor `fd` of the running task. Returns 0, or -1 with nothing
/// changed when `fd` is not open.
pub fn sys_close(k: &mut Kernel, fd: usize) -> (r: isize)
    requires
        old(k).wf(),
    ensures
        final(k).wf(),
        handle_of(*old(k), fd) is None ==> r == -1 && *final(k) == *old(k),
        handle_of(*old(k), fd) is Some ==> {
            &&& r == 0
            &&& final(k).current == old(k).current
            &&& final(k).cur().fd_table@ == old(k).cur().fd_table@.update(fd as int, None)
        },
{
    if lookup_fd(k, fd).is_none() {
        return -1;
    }
    let ghost k0 = *k;
    let mut t = k.take_current();
    t.fd_table.set(fd, None);
    k.put_current(t);
    proof {
        assert forall|j: int|
            0 <= j < k.tasks@.len() implies (#[trigger] k.tasks@[j] matches Some(t) ==> {
                &&& t.pid == j
                &&& t.wf()
                &&& frames_below(t.memory_set@, k.nframes as int)
            }) by {
            if j != k.current as int {
                assert(k.tasks@[j] == k0.tasks@[j]);
            }
        }
    }
    0
}

/// Status of a file as the file system reports it.
#[derive(Clone, Copy, PartialEq, Eq, Structural, Debug)]
pub struct Stat {
    pub dev: u64,
    pub ino: u64,
    pub mode: u32,
    pub nlink: u32,
}

/// Layout of a `Stat` in user memory: device and inode numbers as 8-byte
/// words, mode and link count as 4-byte words, then 56 zero bytes, all
/// little-endian.
pub open spec fn stat_bytes(st: Stat) -> Seq<u8> {
    le_bytes(st.dev as nat, 8) + le_bytes(st.ino as nat, 8) + le_bytes(st.mode as nat, 4) + le_bytes(
        st.nlink as nat,
        4,
    ) + Seq::new(56, |i: int| 0u8)
}

impl Stat {
    /// The record as it is laid out in user memory.
    pub fn to_bytes(&self) -> (b: Vec<u8>)
        ensures
            b@ == stat_bytes(*self),
            b@.len() == 80,
    {
        let mut b: Vec<u8> = Vec::new();
        push_le(&mut b, self.dev, 8);
        push_le(&mut b, self.ino, 8);
        push_le(&mut b, self.mode as u64, 4);
        push_le(&mut b, self.nlink as u64, 4);
        let ghost head = b@;
        let mut i: usize = 0;
        while i < 56
            invariant
                i <= 56,
                b@ == head + Seq::new(i as nat, |j: int| 0u8),
            decreases 56 - i,
        {
            b.push(0);
            assert(b@ =~= head + Seq::new((i + 1) as nat, |j: int| 0u8));
            i = i + 1;
        }
        proof {
            assert(b@ =~= stat_bytes(*self));
            crate::encode::lemma_le_bytes_len(self.dev as nat, 8);
            crate::encode::lemma_le_bytes_len(self.ino as nat, 8);
            crate::encode::lemma_le_bytes_len(self.mode as nat, 4);
            crate::encode::lemma_le_bytes_len(self.nlink as nat, 4);
        }
        b
    }
}

/// Writes `stat`, the file system's status of the file behind descriptor
/// `fd`, to user address `st`. Returns 0, or -1 with nothing changed when
/// `fd` is not open or the 80 bytes at `st` are not writable.
pub fn sys_fstat(k: &mut Kernel, fd: usize, st: usize, stat: &Stat) -> (r: isize)
    requires
        old(k).wf(),
    ensures
        final(k).wf(),
        if handle_of(*old(k), fd) is Some && st + 80 <= usize::MAX && range_accessible(
            old(k).cur().memory_set@,
            st as int,
            80,
            true,
        ) {
            r == 0 && user_write(*old(k), st, stat_bytes(*stat), final(k).mem@) && final(k).tasks
                == old(k).tasks
        } else {
            r == -1 && *final(k) == *old(k)
        },
{
    if lookup_fd(k, fd).is_none() {
        return -1;
    }
    let bytes = stat.to_bytes();
    if copy_to_user(k, st, &bytes) {
        0
    } else {
        -1
    }
}

} // verus!
