use kernel_sync::semaphore::Semaphore;

fn queue(s: &Semaphore) -> Vec<usize> {
    s.inner.wait_queue.iter().copied().collect()
}

#[test]
fn new_semaphore_is_empty() {
    let s = Semaphore::new(3);
    assert_eq!(s.inner.count, 3);
    assert!(s.inner.holders.is_empty());
    assert!(s.inner.wait_queue.is_empty());
}

#[test]
fn down_with_free_unit_acquires() {
    let mut s = Semaphore::new(2);
    assert!(s.down(7));
    assert_eq!(s.inner.count, 1);
    assert_eq!(s.inner.holders, vec![(7, 1)]);
    assert!(s.down(7));
    assert_eq!(s.inner.count, 0);
    assert_eq!(s.inner.holders, vec![(7, 2)]);
}

#[test]
fn down_without_free_unit_blocks_once() {
    let mut s = Semaphore::new(0);
    assert!(!s.down(4));
    assert_eq!(s.inner.count, -1);
    assert_eq!(queue(&s), vec![4]);
    // The same task is not queued twice.
    assert!(!s.down(4));
    assert_eq!(s.inner.count, -2);
    assert_eq!(queue(&s), vec![4]);
    assert!(s.inner.holders.is_empty());
}

#[test]
fn up_wakes_oldest_waiter() {
    let mut s = Semaphore::new(1);
    assert!(s.down(1));
    assert!(!s.down(2));
    assert!(!s.down(3));
    assert_eq!(s.inner.count, -2);
    assert_eq!(s.up(1), Some(2));
    assert_eq!(s.inner.count, -1);
    assert!(s.inner.holders.is_empty());
    assert_eq!(queue(&s), vec![3]);
    s.acquire_after_wakeup(2);
    assert_eq!(s.inner.holders, vec![(2, 1)]);
}

#[test]
fn up_without_waiters_wakes_nobody() {
    let mut s = Semaphore::new(1);
    assert!(s.down(5));
    assert_eq!(s.up(5), None);
    assert_eq!(s.inner.count, 1);
}

#[test]
fn down_then_up_restores_state() {
    let mut s = Semaphore::new(2);
    assert!(s.down(1));
    assert!(s.down(2));
    s.up(2);
    let before = (s.inner.count, s.inner.holders.clone(), queue(&s));
    assert!(s.down(1));
    assert_eq!(s.up(1), None);
    assert_eq!((s.inner.count, s.inner.holders.clone(), queue(&s)), before);
}

#[test]
fn up_by_task_holding_nothing_still_frees_unit() {
    let mut s = Semaphore::new(1);
    assert!(s.down(1));
    assert_eq!(s.up(9), None);
    assert_eq!(s.inner.count, 1);
    assert_eq!(s.inner.holders, vec![(1, 1)]);
}

#[test]
fn release_removes_only_the_emptied_entry() {
    let mut s = Semaphore::new(5);
    assert!(s.down(1));
    assert!(s.down(2));
    assert!(s.down(3));
    assert!(s.down(2));
    assert_eq!(s.inner.holders, vec![(1, 1), (2, 2), (3, 1)]);
    s.up(1);
    assert_eq!(s.inner.holders, vec![(2, 2), (3, 1)]);
    s.up(2);
    assert_eq!(s.inner.holders, vec![(2, 1), (3, 1)]);
}

#[test]
fn state_for_detection_clamps_count() {
    let mut s = Semaphore::new(0);
    assert!(!s.down(3));
    assert!(!s.down(4));
    let (available, holders, waiters) = s.get_state_for_deadlock_detection();
    assert_eq!(available, 0);
    assert!(holders.is_empty());
    assert_eq!(waiters, vec![3, 4]);

    let mut t = Semaphore::new(4);
    assert!(t.down(6));
    let (available, holders, waiters) = t.get_state_for_deadlock_detection();
    assert_eq!(available, 3);
    assert_eq!(holders, vec![(6, 1)]);
    assert!(waiters.is_empty());
}
