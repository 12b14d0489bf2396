use os_core::config::{BIG_STRIDE, PAGE_SIZE};
use os_core::mm::MapPermission;
use os_core::process::{
    calculate_runtime, sys_exec, sys_exit, sys_fork, sys_get_time, sys_getpid, sys_mmap,
    sys_munmap, sys_sbrk, sys_set_priority, sys_spawn, sys_task_info, sys_waitpid, sys_yield,
    Kernel, ProgramImage, Segment, TaskInfo, TimeVal,
};
use os_core::task::TaskStatus;

fn user_byte(k: &Kernel, va: usize) -> u8 {
    let t = k.tasks[k.current].as_ref().unwrap();
    let e = t.memory_set.translate(va / PAGE_SIZE).unwrap();
    k.mem[e.ppn * PAGE_SIZE + va % PAGE_SIZE]
}

fn user_bytes(k: &Kernel, va: usize, n: usize) -> Vec<u8> {
    (0..n).map(|i| user_byte(k, va + i)).collect()
}

fn cur_areas(k: &Kernel) -> Vec<(usize, usize, MapPermission)> {
    let t = k.tasks[k.current].as_ref().unwrap();
    t.memory_set.areas.iter().map(|a| (a.start_vpn, a.end_vpn, a.perm)).collect()
}

fn image(segs: &[(usize, usize)]) -> ProgramImage {
    let perm = MapPermission { read: true, write: true, execute: true, user: true };
    ProgramImage {
        segments: segs.iter().map(|&(s, e)| Segment { start_vpn: s, end_vpn: e, perm }).collect(),
        heap_bottom: 0x8000,
    }
}

#[test]
fn getpid_of_first_task() {
    let k = Kernel::new(8);
    assert_eq!(sys_getpid(&k), 0);
}

#[test]
fn mmap_rejects_bad_arguments() {
    let mut k = Kernel::new(8);
    assert_eq!(sys_mmap(&mut k, 0x1001, 4096, 3), -1);
    assert_eq!(sys_mmap(&mut k, 0x1000, 4096, 0), -1);
    assert_eq!(sys_mmap(&mut k, 0x1000, 4096, 8), -1);
    assert_eq!(sys_mmap(&mut k, 0x1000, 4096, 0x13), -1);
    assert_eq!(sys_mmap(&mut k, 0x1000, 9 * 4096, 3), -1);
    assert!(cur_areas(&k).is_empty());
    assert_eq!(k.free_frames.len(), 8);
}

#[test]
fn mmap_rounds_length_up_and_decodes_port() {
    let mut k = Kernel::new(8);
    assert_eq!(sys_mmap(&mut k, 0x2000, 5000, 5), 0);
    let perm = MapPermission { read: true, write: false, execute: true, user: true };
    assert_eq!(cur_areas(&k), vec![(2, 4, perm)]);
    assert_eq!(k.free_frames.len(), 6);
}

#[test]
fn mmap_munmap_round_trip() {
    let mut k = Kernel::new(8);
    assert_eq!(sys_mmap(&mut k, 0x10000, 0x1000, 1), 0);
    let before = cur_areas(&k);
    assert_eq!(sys_mmap(&mut k, 0x4000, 0x2000, 3), 0);
    assert_eq!(sys_munmap(&mut k, 0x4000, 0x2000), 0);
    assert_eq!(cur_areas(&k), before);
    assert_eq!(k.free_frames.len(), 7);
    assert_eq!(sys_mmap(&mut k, 0x4000, 0x2000, 3), 0);
}

#[test]
fn mmap_overlap_is_rejected_and_first_mapping_kept() {
    let mut k = Kernel::new(8);
    assert_eq!(sys_mmap(&mut k, 0x4000, 0x2000, 1), 0);
    assert_eq!(sys_mmap(&mut k, 0x4000, 0x2000, 2), -1);
    assert_eq!(sys_mmap(&mut k, 0x5000, 0x1000, 2), -1);
    let perm = MapPermission { read: true, write: false, execute: false, user: true };
    assert_eq!(cur_areas(&k), vec![(4, 6, perm)]);
}

#[test]
fn munmap_needs_exact_aligned_match() {
    let mut k = Kernel::new(8);
    assert_eq!(sys_mmap(&mut k, 0x4000, 0x3000, 3), 0);
    assert_eq!(sys_munmap(&mut k, 0x4000, 0), -1);
    assert_eq!(sys_munmap(&mut k, 0x4001, 0x3000), -1);
    assert_eq!(sys_munmap(&mut k, 0x4000, 0x2800), -1);
    assert_eq!(sys_munmap(&mut k, 0x4000, 0x2000), -1);
    assert_eq!(sys_munmap(&mut k, 0x5000, 0x2000), -1);
    assert_eq!(cur_areas(&k).len(), 1);
    assert_eq!(sys_munmap(&mut k, 0x4000, 0x3000), 0);
    assert!(cur_areas(&k).is_empty());
    assert_eq!(k.free_frames.len(), 8);
}

#[test]
fn set_priority_checks_lower_bound() {
    let mut k = Kernel::new(4);
    assert_eq!(sys_set_priority(&mut k, 1), -1);
    assert_eq!(sys_set_priority(&mut k, -5), -1);
    assert_eq!(sys_set_priority(&mut k, 4), 4);
    let t = k.tasks[0].as_ref().unwrap();
    assert_eq!(t.priority, 4);
    assert_eq!(t.stride, BIG_STRIDE / 4);
    assert_eq!(t.pass, BIG_STRIDE / 4);
}

#[test]
fn yield_runs_least_pass_task() {
    let mut k = Kernel::new(8);
    assert_eq!(sys_fork(&mut k), 1);
    assert_eq!(sys_yield(&mut k), 0);
    // the child has pass 0, the parent a larger one after set_priority
    assert_eq!(k.current, 0);
    assert_eq!(sys_set_priority(&mut k, 2), 2);
    assert_eq!(sys_yield(&mut k), 0);
    assert_eq!(k.current, 1);
    assert_eq!(k.tasks[1].as_ref().unwrap().task_status, TaskStatus::Running);
    assert_eq!(k.tasks[0].as_ref().unwrap().task_status, TaskStatus::Ready);
}

#[test]
fn waitpid_reports_running_then_reaps_with_exit_code() {
    let mut k = Kernel::new(8);
    assert_eq!(sys_mmap(&mut k, 0x1000, 0x1000, 3), 0);
    // no children at all
    assert_eq!(sys_waitpid(&mut k, -1, 0x1000), -1);
    let child = sys_fork(&mut k);
    assert_eq!(child, 1);
    // a child exists but has not exited
    assert_eq!(sys_waitpid(&mut k, -1, 0x1000), -2);
    assert_eq!(sys_waitpid(&mut k, 5, 0x1000), -1);
    // run the child and let it exit with code 42
    assert_eq!(sys_set_priority(&mut k, 2), 2);
    sys_yield(&mut k);
    assert_eq!(k.current, 1);
    assert!(sys_exit(&mut k, 42));
    assert_eq!(k.current, 0);
    assert_eq!(k.tasks[1].as_ref().unwrap().task_status, TaskStatus::Zombie);
    // an unwritable slot leaves the child in place
    assert_eq!(sys_waitpid(&mut k, -1, 0x9000), -1);
    assert_eq!(sys_waitpid(&mut k, -1, 0x1ffe), -1);
    assert_eq!(sys_waitpid(&mut k, 1, 0x1010), 1);
    assert_eq!(user_bytes(&k, 0x1010, 4), vec![42, 0, 0, 0]);
    assert!(k.tasks[1].is_none());
    assert_eq!(sys_waitpid(&mut k, -1, 0x1010), -1);
}

#[test]
fn waitpid_writes_negative_exit_code() {
    let mut k = Kernel::new(8);
    assert_eq!(sys_mmap(&mut k, 0x1000, 0x1000, 3), 0);
    assert_eq!(sys_fork(&mut k), 1);
    sys_set_priority(&mut k, 2);
    sys_yield(&mut k);
    sys_exit(&mut k, -1);
    assert_eq!(sys_waitpid(&mut k, -1, 0x1000), 1);
    assert_eq!(user_bytes(&k, 0x1000, 4), vec![0xff, 0xff, 0xff, 0xff]);
}

#[test]
fn exit_releases_frames_and_reparents_children() {
    let mut k = Kernel::new(8);
    assert_eq!(sys_fork(&mut k), 1);
    sys_set_priority(&mut k, 2);
    sys_yield(&mut k);
    assert_eq!(k.current, 1);
    assert_eq!(sys_mmap(&mut k, 0x1000, 0x2000, 3), 0);
    assert_eq!(k.free_frames.len(), 6);
    assert_eq!(sys_fork(&mut k), 2);
    assert_eq!(k.free_frames.len(), 4);
    assert!(sys_exit(&mut k, 0));
    assert_eq!(k.free_frames.len(), 6);
    let init = k.tasks[0].as_ref().unwrap();
    assert_eq!(init.children, vec![1, 2]);
    assert_eq!(k.tasks[2].as_ref().unwrap().parent, Some(0));
}

#[test]
fn fork_copies_layout_and_contents() {
    let mut k = Kernel::new(8);
    assert_eq!(sys_mmap(&mut k, 0x1000, 0x1000, 3), 0);
    assert_eq!(sys_get_time(&mut k, 0x1000, 3_500_000), 0);
    assert_eq!(sys_fork(&mut k), 1);
    let parent_areas = cur_areas(&k);
    let child = k.tasks[1].as_ref().unwrap();
    assert_eq!(child.parent, Some(0));
    assert_eq!(child.task_status, TaskStatus::Ready);
    assert_eq!(child.pass, 0);
    let child_areas: Vec<_> =
        child.memory_set.areas.iter().map(|a| (a.start_vpn, a.end_vpn, a.perm)).collect();
    assert_eq!(child_areas, parent_areas);
    let pf = k.tasks[0].as_ref().unwrap().memory_set.areas[0].frames[0];
    let cf = child.memory_set.areas[0].frames[0];
    assert_ne!(pf, cf);
    assert_eq!(k.mem[cf * PAGE_SIZE..cf * PAGE_SIZE + 16], k.mem[pf * PAGE_SIZE..pf * PAGE_SIZE + 16]);
    assert_eq!(k.tasks[0].as_ref().unwrap().children, vec![1]);
}

#[test]
fn fork_fails_without_frames() {
    let mut k = Kernel::new(2);
    assert_eq!(sys_mmap(&mut k, 0x1000, 0x2000, 3), 0);
    assert_eq!(sys_fork(&mut k), -1);
    assert_eq!(k.tasks.len(), 1);
}

#[test]
fn exec_replaces_address_space() {
    let mut k = Kernel::new(8);
    assert_eq!(sys_mmap(&mut k, 0x1000, 0x1000, 3), 0);
    assert_eq!(sys_exec(&mut k, None), -1);
    assert_eq!(sys_exec(&mut k, Some(&image(&[(1, 3), (2, 4)]))), -1);
    assert_eq!(cur_areas(&k).len(), 1);
    assert_eq!(sys_exec(&mut k, Some(&image(&[(0x10, 0x12), (0x20, 0x21)]))), 0);
    let areas = cur_areas(&k);
    assert_eq!(areas.iter().map(|a| (a.0, a.1)).collect::<Vec<_>>(), vec![(0x10, 0x12), (0x20, 0x21)]);
    assert_eq!(k.free_frames.len(), 5);
    assert_eq!(sys_getpid(&k), 0);
    assert_eq!(sys_sbrk(&mut k, 0), 0x8000);
}

#[test]
fn spawn_creates_ready_child() {
    let mut k = Kernel::new(8);
    assert_eq!(sys_spawn(&mut k, None), -1);
    assert_eq!(sys_spawn(&mut k, Some(&image(&[(0x10, 0x20)]))), -1);
    assert_eq!(sys_spawn(&mut k, Some(&image(&[(0x10, 0x12)]))), 1);
    let c = k.tasks[1].as_ref().unwrap();
    assert_eq!(c.task_status, TaskStatus::Ready);
    assert_eq!(c.parent, Some(0));
    assert_eq!(c.memory_set.areas.len(), 1);
    assert_eq!(k.manager.ready.len(), 1);
    assert_eq!(k.free_frames.len(), 6);
}

#[test]
fn sbrk_moves_break_within_heap() {
    let mut k = Kernel::new(4);
    assert_eq!(sys_exec(&mut k, Some(&image(&[(0x10, 0x11)]))), 0);
    assert_eq!(sys_sbrk(&mut k, 100), 0x8000);
    assert_eq!(sys_sbrk(&mut k, -50), 0x8000 + 100);
    assert_eq!(sys_sbrk(&mut k, -51), -1);
    assert_eq!(sys_sbrk(&mut k, -50), 0x8000 + 50);
    assert_eq!(sys_sbrk(&mut k, 0), 0x8000);
}

#[test]
fn get_time_writes_seconds_and_microseconds() {
    let mut k = Kernel::new(4);
    assert_eq!(sys_get_time(&mut k, 0x1000, 1), -1);
    assert_eq!(sys_mmap(&mut k, 0x1000, 0x2000, 3), 0);
    assert_eq!(sys_get_time(&mut k, 0x1ff8, 12_345_678), 0);
    let tv = TimeVal::from_us(12_345_678);
    assert_eq!(tv, TimeVal { sec: 12, usec: 345_678 });
    assert_eq!(user_bytes(&k, 0x1ff8, 16), tv.to_bytes());
    assert_eq!(&user_bytes(&k, 0x1ff8, 8), &12u64.to_le_bytes());
    assert_eq!(&user_bytes(&k, 0x2000, 8), &345_678u64.to_le_bytes());
}

#[test]
fn task_info_reports_status_counts_and_time() {
    let mut k = Kernel::new(4);
    assert_eq!(sys_task_info(&mut k, 0, 10), -1);
    assert_eq!(sys_mmap(&mut k, 0x1000, 0x1000, 3), 0);
    {
        let t = k.tasks[0].as_mut().unwrap();
        t.start_time = 100;
        t.increment_syscall_count(169);
        t.increment_syscall_count(169);
    }
    assert_eq!(sys_task_info(&mut k, 0x1000, 350), 0);
    let b = user_bytes(&k, 0x1000, 2016);
    assert_eq!(&b[0..4], &2u32.to_le_bytes());
    assert_eq!(&b[4 + 169 * 4..8 + 169 * 4], &2u32.to_le_bytes());
    assert_eq!(&b[2008..2016], &250u64.to_le_bytes());
    let info = TaskInfo { status: TaskStatus::Running, syscall_times: vec![0; 500], time: 250 };
    assert_eq!(info.to_bytes().len(), 2016);
}

#[test]
fn runtime_is_elapsed_time() {
    assert_eq!(calculate_runtime(100, 350), 250);
    assert_eq!(calculate_runtime(400, 350), 0);
}
