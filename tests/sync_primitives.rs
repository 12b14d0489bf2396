use os_core::mutex::{Mutex, MutexBlocking, MutexSpin};
use os_core::semaphore::Semaphore;

#[test]
fn semaphore_down_takes_units_then_blocks() {
    let mut s = Semaphore::new(2);
    assert!(s.down(1));
    assert!(s.down(2));
    assert!(!s.down(3));
    assert_eq!(s.inner.count, -1);
    assert_eq!(s.stat(), 0);
    assert_eq!(s.get_allocation(), Some(vec![1, 2]));
    assert_eq!(s.get_need(), Some(vec![3]));
}

#[test]
fn semaphore_up_hands_unit_to_oldest_waiter() {
    let mut s = Semaphore::new(1);
    assert!(s.down(1));
    assert!(!s.down(2));
    assert!(!s.down(3));
    assert_eq!(s.up(1), Some(2));
    assert_eq!(s.get_allocation(), Some(vec![2]));
    assert_eq!(s.get_need(), Some(vec![3]));
    assert_eq!(s.up(2), Some(3));
    assert_eq!(s.get_need(), None);
    assert_eq!(s.up(3), None);
    assert_eq!(s.stat(), 1);
    assert_eq!(s.get_allocation(), None);
}

#[test]
fn semaphore_fresh_has_no_holders_or_waiters() {
    let s = Semaphore::new(0);
    assert_eq!(s.stat(), 0);
    assert_eq!(s.get_allocation(), None);
    assert_eq!(s.get_need(), None);
}

#[test]
fn semaphore_up_by_non_holder_only_adds_a_unit() {
    let mut s = Semaphore::new(0);
    assert_eq!(s.up(9), None);
    assert_eq!(s.stat(), 1);
    assert_eq!(s.get_allocation(), None);
}

#[test]
fn semaphore_count_tracks_calls() {
    // initial 3; downs: 5 (two of them block); ups: 2
    let mut s = Semaphore::new(3);
    for t in 0..5 {
        s.down(t);
    }
    assert_eq!(s.inner.count, -2);
    assert_eq!(s.inner.wait_queue.len(), 2);
    s.up(0);
    s.up(1);
    assert_eq!(s.inner.count, 3 - 5 + 2);
    assert!(s.inner.wait_queue.is_empty());
}

#[test]
fn semaphore_count_without_blocking() {
    let mut s = Semaphore::new(4);
    assert!(s.down(1));
    assert!(s.down(2));
    s.up(1);
    assert_eq!(s.inner.count, 4 - 2 + 1);
}

#[test]
fn semaphore_wakes_in_fifo_order() {
    let mut s = Semaphore::new(0);
    assert!(!s.down(10));
    assert!(!s.down(20));
    assert_eq!(s.up(1), Some(10));
    assert_eq!(s.up(1), Some(20));
}

#[test]
fn spin_mutex_lock_and_unlock() {
    let mut m = MutexSpin::new();
    assert_eq!(m.stat(), 1);
    assert_eq!(m.get_allocation(), None);
    assert!(m.lock(4));
    assert_eq!(m.stat(), 0);
    assert_eq!(m.get_allocation(), Some(vec![4]));
    assert!(!m.lock(5));
    assert_eq!(m.get_need(), None);
    assert_eq!(m.unlock(), None);
    assert_eq!(m.stat(), 1);
    assert!(m.lock(5));
    assert_eq!(m.get_allocation(), Some(vec![5]));
}

#[test]
fn blocking_mutex_hands_off_in_fifo_order() {
    let mut m = MutexBlocking::new();
    assert!(m.lock(1));
    assert!(!m.lock(2));
    assert!(!m.lock(3));
    assert_eq!(m.get_need(), Some(vec![2, 3]));
    assert_eq!(m.unlock(), Some(2));
    // the lock stays held, now by the woken task
    assert_eq!(m.stat(), 0);
    assert_eq!(m.get_allocation(), Some(vec![2]));
    assert_eq!(m.get_need(), Some(vec![3]));
    assert_eq!(m.unlock(), Some(3));
    assert_eq!(m.get_allocation(), Some(vec![3]));
    assert_eq!(m.unlock(), None);
    assert_eq!(m.stat(), 1);
    assert_eq!(m.get_allocation(), None);
    assert_eq!(m.get_need(), None);
}

#[test]
fn blocking_mutex_no_steal_after_handoff() {
    let mut m = MutexBlocking::new();
    assert!(m.lock(1));
    assert!(!m.lock(2));
    assert_eq!(m.unlock(), Some(2));
    // a third task arriving now must queue, not take the lock
    assert!(!m.lock(3));
    assert_eq!(m.get_allocation(), Some(vec![2]));
}

#[test]
fn blocking_mutex_holder_is_last_acquirer() {
    let mut m = MutexBlocking::new();
    let mut holder: Option<usize> = None;
    let script: Vec<(bool, usize)> = vec![
        (true, 1),
        (true, 2),
        (false, 0),
        (true, 3),
        (false, 0),
        (false, 0),
        (true, 4),
    ];
    for (is_lock, tid) in script {
        if is_lock {
            if m.lock(tid) {
                holder = Some(tid);
            }
        } else if let Some(w) = m.unlock() {
            holder = Some(w);
        } else {
            holder = None;
        }
        let reported = m.get_allocation().map(|v| v[0]);
        assert_eq!(reported, holder);
    }
    assert_eq!(holder, Some(4));
}
