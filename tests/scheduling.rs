use os_core::config::BIG_STRIDE;
use os_core::sched::{SchedEntry, TaskManager};
use os_core::task::{TaskControlBlock, TaskStatus, DEFAULT_PRIORITY};

#[test]
fn fetch_picks_least_pass_and_bumps_it() {
    let mut m = TaskManager::new();
    assert_eq!(m.fetch(), None);
    m.add(SchedEntry { pid: 1, pass: 30, stride: 5 });
    m.add(SchedEntry { pid: 2, pass: 10, stride: 7 });
    m.add(SchedEntry { pid: 3, pass: 20, stride: 9 });
    assert_eq!(m.fetch(), Some(SchedEntry { pid: 2, pass: 17, stride: 7 }));
    assert_eq!(m.ready.len(), 2);
    assert_eq!(m.fetch(), Some(SchedEntry { pid: 3, pass: 29, stride: 9 }));
}

#[test]
fn fetch_breaks_ties_by_lowest_id() {
    let mut m = TaskManager::new();
    m.add(SchedEntry { pid: 8, pass: 10, stride: 1 });
    m.add(SchedEntry { pid: 3, pass: 10, stride: 1 });
    m.add(SchedEntry { pid: 5, pass: 10, stride: 1 });
    assert_eq!(m.fetch().unwrap().pid, 3);
    assert_eq!(m.fetch().unwrap().pid, 5);
}

#[test]
fn stride_fairness_two_to_one() {
    let p = 4u64;
    let a = SchedEntry { pid: 1, pass: BIG_STRIDE / p, stride: BIG_STRIDE / p };
    let b = SchedEntry { pid: 2, pass: BIG_STRIDE / (2 * p), stride: BIG_STRIDE / (2 * p) };
    let mut m = TaskManager::new();
    m.add(a);
    m.add(b);
    let (mut ra, mut rb) = (0u64, 0u64);
    for _ in 0..300 {
        let e = m.fetch().unwrap();
        if e.pid == 1 {
            ra += 1;
        } else {
            rb += 1;
        }
        m.add(e);
        assert!(2 * ra <= rb + 1);
    }
    assert_eq!(ra + rb, 300);
    assert_eq!(rb, 200);
}

#[test]
fn new_task_defaults() {
    let t = TaskControlBlock::new(7);
    assert_eq!(t.pid, 7);
    assert_eq!(t.task_status, TaskStatus::UnInit);
    assert_eq!(t.priority, DEFAULT_PRIORITY);
    assert_eq!(t.stride, BIG_STRIDE / DEFAULT_PRIORITY);
    assert_eq!(t.pass, 0);
    assert_eq!(t.syscall_count.len(), 500);
    assert!(t.syscall_count.iter().all(|c| *c == 0));
}

#[test]
fn syscall_counts_increment_and_ignore_unknown_ids() {
    let mut t = TaskControlBlock::new(0);
    t.increment_syscall_count(64);
    t.increment_syscall_count(64);
    t.increment_syscall_count(93);
    t.increment_syscall_count(500);
    assert_eq!(t.syscall_count[64], 2);
    assert_eq!(t.syscall_count[93], 1);
    assert_eq!(t.syscall_count.iter().map(|c| *c as u64).sum::<u64>(), 3);
    t.syscall_count[1] = u32::MAX;
    t.increment_syscall_count(1);
    assert_eq!(t.syscall_count[1], u32::MAX);
}

#[test]
fn set_priority_sets_stride_and_first_pass() {
    let mut t = TaskControlBlock::new(0);
    t.set_priority(8);
    assert_eq!(t.stride, BIG_STRIDE / 8);
    assert_eq!(t.pass, BIG_STRIDE / 8);
    t.pass = 100;
    t.set_priority(2);
    assert_eq!(t.priority, 2);
    assert_eq!(t.stride, BIG_STRIDE / 2);
    assert_eq!(t.pass, 100);
}
