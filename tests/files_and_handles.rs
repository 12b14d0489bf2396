use os_core::config::PAGE_SIZE;
use os_core::fs::{sys_close, sys_fstat, sys_open, sys_read, sys_write, Stat};
use os_core::mm::PhysRange;
use os_core::mutex::Mutex;
use os_core::process::{sys_fork, sys_mmap, sys_set_priority, sys_yield, Kernel};
use os_core::sync::{
    sys_mutex_create, sys_mutex_lock, sys_mutex_unlock, sys_semaphore_create, sys_semaphore_down,
    sys_semaphore_up, wakeup_task, SyncTable,
};
use os_core::task::{FileHandle, TaskStatus};

fn handle(file: usize, readable: bool, writable: bool) -> FileHandle {
    FileHandle { file, readable, writable }
}

#[test]
fn open_uses_lowest_free_descriptor() {
    let mut k = Kernel::new(4);
    assert_eq!(sys_open(&mut k, None), -1);
    assert_eq!(sys_open(&mut k, Some(handle(10, true, false))), 0);
    assert_eq!(sys_open(&mut k, Some(handle(11, true, true))), 1);
    assert_eq!(sys_open(&mut k, Some(handle(12, false, true))), 2);
    assert_eq!(sys_close(&mut k, 1), 0);
    assert_eq!(sys_close(&mut k, 1), -1);
    assert_eq!(sys_close(&mut k, 9), -1);
    assert_eq!(sys_open(&mut k, Some(handle(13, true, true))), 1);
    let t = k.tasks[0].as_ref().unwrap();
    assert_eq!(t.fd_table[1], Some(handle(13, true, true)));
}

#[test]
fn write_and_read_check_rights_and_buffers() {
    let mut k = Kernel::new(4);
    assert_eq!(sys_mmap(&mut k, 0x1000, 0x1000, 1), 0);
    assert_eq!(sys_mmap(&mut k, 0x2000, 0x1000, 3), 0);
    assert_eq!(sys_open(&mut k, Some(handle(10, true, false))), 0);
    assert_eq!(sys_open(&mut k, Some(handle(11, false, true))), 1);
    assert!(sys_write(&k, 0, 0x1000, 8).is_none());
    assert!(sys_write(&k, 5, 0x1000, 8).is_none());
    let io = sys_write(&k, 1, 0x1ffc, 8).unwrap();
    assert_eq!(io.file, 11);
    assert_eq!(io.ranges.len(), 2);
    assert_eq!(io.ranges.iter().map(|r| r.len).sum::<usize>(), 8);
    assert!(sys_read(&k, 1, 0x2000, 8).is_none());
    // the first page is read-only for the task, so the kernel may not fill it
    assert!(sys_read(&k, 0, 0x1000, 8).is_none());
    let io = sys_read(&k, 0, 0x2010, 8).unwrap();
    let f = k.tasks[0].as_ref().unwrap().memory_set.translate(2).unwrap().ppn;
    assert_eq!(io.ranges, vec![PhysRange { pa: f * PAGE_SIZE + 0x10, len: 8 }]);
}

#[test]
fn fstat_writes_record() {
    let mut k = Kernel::new(4);
    assert_eq!(sys_mmap(&mut k, 0x1000, 0x1000, 3), 0);
    let st = Stat { dev: 0, ino: 7, mode: 0o100000, nlink: 2 };
    assert_eq!(sys_fstat(&mut k, 0, 0x1000, &st), -1);
    assert_eq!(sys_open(&mut k, Some(handle(7, true, true))), 0);
    assert_eq!(sys_fstat(&mut k, 0, 0x1fc0, &st), -1);
    assert_eq!(sys_fstat(&mut k, 0, 0x1000, &st), 0);
    let b = st.to_bytes();
    assert_eq!(b.len(), 80);
    assert_eq!(&b[8..16], &7u64.to_le_bytes());
    assert_eq!(&b[16..20], &0o100000u32.to_le_bytes());
    assert_eq!(&b[20..24], &2u32.to_le_bytes());
    let f = k.tasks[0].as_ref().unwrap().memory_set.translate(1).unwrap().ppn;
    assert_eq!(&k.mem[f * PAGE_SIZE..f * PAGE_SIZE + 80], &b[..]);
}

#[test]
fn mutex_lock_blocks_and_unlock_wakes() {
    let mut k = Kernel::new(4);
    let mut s = SyncTable::new();
    assert_eq!(sys_fork(&mut k), 1);
    let m = sys_mutex_create(&mut s);
    assert_eq!(m, 0);
    assert_eq!(sys_mutex_lock(&mut k, &mut s, 7), -1);
    assert_eq!(sys_mutex_lock(&mut k, &mut s, 0), 0);
    assert_eq!(k.current, 0);
    sys_set_priority(&mut k, 2);
    sys_yield(&mut k);
    assert_eq!(k.current, 1);
    // task 1 blocks on the held lock and task 0 runs again
    assert_eq!(sys_mutex_lock(&mut k, &mut s, 0), 0);
    assert_eq!(k.current, 0);
    assert_eq!(k.tasks[1].as_ref().unwrap().task_status, TaskStatus::Blocked);
    assert_eq!(s.mutexes[0].get_need(), Some(vec![1]));
    assert_eq!(sys_mutex_unlock(&mut k, &mut s, 0), 0);
    assert_eq!(k.tasks[1].as_ref().unwrap().task_status, TaskStatus::Ready);
    assert_eq!(s.mutexes[0].get_allocation(), Some(vec![1]));
    assert_eq!(k.manager.ready.len(), 1);
}

#[test]
fn semaphore_down_blocks_and_up_wakes() {
    let mut k = Kernel::new(4);
    let mut s = SyncTable::new();
    assert_eq!(sys_fork(&mut k), 1);
    assert_eq!(sys_semaphore_create(&mut s, 1), 0);
    assert_eq!(sys_semaphore_down(&mut k, &mut s, 3), -1);
    assert_eq!(sys_semaphore_down(&mut k, &mut s, 0), 0);
    sys_set_priority(&mut k, 2);
    sys_yield(&mut k);
    assert_eq!(k.current, 1);
    assert_eq!(sys_semaphore_down(&mut k, &mut s, 0), 0);
    assert_eq!(k.current, 0);
    assert_eq!(k.tasks[1].as_ref().unwrap().task_status, TaskStatus::Blocked);
    assert_eq!(s.semaphores[0].stat(), 0);
    assert_eq!(sys_semaphore_up(&mut k, &mut s, 0), 0);
    assert_eq!(k.tasks[1].as_ref().unwrap().task_status, TaskStatus::Ready);
    assert_eq!(s.semaphores[0].get_allocation(), Some(vec![1]));
    assert_eq!(s.semaphores[0].get_need(), None);
}

#[test]
fn wakeup_ignores_tasks_that_are_not_blocked() {
    let mut k = Kernel::new(4);
    assert_eq!(sys_fork(&mut k), 1);
    wakeup_task(&mut k, 1);
    wakeup_task(&mut k, 0);
    wakeup_task(&mut k, 9);
    assert_eq!(k.manager.ready.len(), 1);
}
