use kernel_sync::semaphore::Semaphore;
use kernel_sync::sync::{
    install_in_free_slot, semaphore_wakeup, sys_condvar_create, sys_condvar_signal,
    sys_condvar_wait, sys_enable_deadlock_detect, sys_mutex_create, sys_mutex_lock,
    sys_mutex_unlock, sys_semaphore_create, sys_semaphore_down, sys_semaphore_up, sys_sleep,
    MutexKind, MutexSnapshot, SemaphoreDownOutcome, DEADLOCK,
};

fn snap(owner: Option<usize>, waiters: Vec<usize>) -> Option<MutexSnapshot> {
    Some(MutexSnapshot { owner, waiters })
}

#[test]
fn deadlock_code_value() {
    assert_eq!(DEADLOCK, -0xDEAD);
    assert_eq!(SemaphoreDownOutcome::Deadlock.code(), -0xDEAD);
    assert_eq!(SemaphoreDownOutcome::Acquired.code(), 0);
    assert_eq!(SemaphoreDownOutcome::Blocked.code(), 0);
}

#[test]
fn mutex_ids_reuse_lowest_free_slot() {
    let mut list: Vec<Option<MutexKind>> = Vec::new();
    assert_eq!(sys_mutex_create(&mut list, false), 0);
    assert_eq!(sys_mutex_create(&mut list, true), 1);
    assert_eq!(sys_mutex_create(&mut list, true), 2);
    assert_eq!(list, vec![Some(MutexKind::Spin), Some(MutexKind::Blocking), Some(MutexKind::Blocking)]);
    list[1] = None;
    list[0] = None;
    assert_eq!(sys_mutex_create(&mut list, false), 0);
    assert_eq!(list[0], Some(MutexKind::Spin));
    assert_eq!(list[1], None);
    assert_eq!(sys_mutex_create(&mut list, false), 1);
    assert_eq!(sys_mutex_create(&mut list, false), 3);
}

#[test]
fn install_appends_when_full() {
    let mut list = vec![Some(1u8), Some(2u8)];
    assert_eq!(install_in_free_slot(&mut list, 3u8), 2);
    assert_eq!(list, vec![Some(1), Some(2), Some(3)]);
}

#[test]
fn condvar_ids_and_checks() {
    let mut list: Vec<Option<u32>> = vec![Some(10), None];
    assert_eq!(sys_condvar_create(&mut list, 11), 1);
    assert_eq!(sys_condvar_create(&mut list, 12), 2);
    assert_eq!(list, vec![Some(10), Some(11), Some(12)]);
    assert_eq!(sys_condvar_signal(&list, 2), 0);
    let mutexes = vec![Some(MutexKind::Blocking)];
    assert_eq!(sys_condvar_wait(&list, &mutexes, 0, 0), 0);
    assert_eq!(sys_mutex_unlock(&mutexes, 0), 0);
}

#[test]
fn semaphore_create_fills_free_slot() {
    let mut list: Vec<Option<Semaphore>> = Vec::new();
    assert_eq!(sys_semaphore_create(&mut list, 2), 0);
    assert_eq!(sys_semaphore_create(&mut list, 5), 1);
    list[0] = None;
    assert_eq!(sys_semaphore_create(&mut list, 7), 0);
    assert_eq!(list[0].as_ref().unwrap().inner.count, 7);
    assert_eq!(list[1].as_ref().unwrap().inner.count, 5);
}

#[test]
fn mutex_lock_without_detection_is_granted() {
    let mutexes = vec![snap(Some(0), vec![1])];
    assert_eq!(sys_mutex_lock(false, 2, &mutexes, 0, 0), 0);
}

#[test]
fn relocking_own_mutex_is_refused() {
    let mutexes = vec![snap(Some(0), vec![])];
    assert_eq!(sys_mutex_lock(true, 1, &mutexes, 0, 0), DEADLOCK);
}

#[test]
fn locking_free_mutex_is_granted() {
    let mutexes = vec![snap(Some(1), vec![0]), snap(None, vec![])];
    assert_eq!(sys_mutex_lock(true, 2, &mutexes, 1, 1), 0);
}

#[test]
fn crossed_locks_are_refused() {
    // Task 0 owns mutex 0 and waits for mutex 1; task 1 owns mutex 1.
    let mutexes = vec![snap(Some(0), vec![]), snap(Some(1), vec![0])];
    assert_eq!(sys_mutex_lock(true, 2, &mutexes, 1, 0), DEADLOCK);
}

#[test]
fn waiting_for_an_owner_that_can_finish_is_granted() {
    // Task 1 owns mutex 0 and waits for nothing: task 0 may wait for it.
    let mutexes = vec![snap(Some(1), vec![]), None];
    assert_eq!(sys_mutex_lock(true, 2, &mutexes, 0, 0), 0);
}

#[test]
fn semaphore_down_and_up_through_table() {
    let mut list: Vec<Option<Semaphore>> = Vec::new();
    sys_semaphore_create(&mut list, 1);
    assert_eq!(sys_semaphore_down(&mut list, true, 2, 0, 0), SemaphoreDownOutcome::Acquired);
    assert_eq!(sys_semaphore_down(&mut list, false, 2, 1, 0), SemaphoreDownOutcome::Blocked);
    assert_eq!(sys_semaphore_up(&mut list, 0, 0), Some(1));
    semaphore_wakeup(&mut list, 1, 0);
    assert_eq!(list[0].as_ref().unwrap().inner.holders, vec![(1, 1)]);
}

#[test]
fn crossed_semaphore_waits_are_refused() {
    let mut list: Vec<Option<Semaphore>> = Vec::new();
    sys_semaphore_create(&mut list, 1);
    sys_semaphore_create(&mut list, 1);
    assert_eq!(sys_semaphore_down(&mut list, true, 2, 0, 0), SemaphoreDownOutcome::Acquired);
    assert_eq!(sys_semaphore_down(&mut list, true, 2, 1, 1), SemaphoreDownOutcome::Acquired);
    // Task 0 waits for semaphore 1: task 1 can still finish.
    assert_eq!(sys_semaphore_down(&mut list, true, 2, 0, 1), SemaphoreDownOutcome::Blocked);
    let count_before = list[0].as_ref().unwrap().inner.count;
    // Task 1 waiting for semaphore 0 would close the cycle.
    assert_eq!(sys_semaphore_down(&mut list, true, 2, 1, 0), SemaphoreDownOutcome::Deadlock);
    assert_eq!(list[0].as_ref().unwrap().inner.count, count_before);
    // Without detection the same request just blocks.
    assert_eq!(sys_semaphore_down(&mut list, false, 2, 1, 0), SemaphoreDownOutcome::Blocked);
}

#[test]
fn enable_deadlock_detect_values() {
    let mut flag = false;
    assert_eq!(sys_enable_deadlock_detect(&mut flag, 1), 0);
    assert!(flag);
    assert_eq!(sys_enable_deadlock_detect(&mut flag, 2), -1);
    assert!(flag);
    assert_eq!(sys_enable_deadlock_detect(&mut flag, 0), 0);
    assert!(!flag);
    assert_eq!(sys_enable_deadlock_detect(&mut flag, usize::MAX), -1);
    assert!(!flag);
}

#[test]
fn sleep_deadline() {
    assert_eq!(sys_sleep(1000, 250), 1250);
    assert_eq!(sys_sleep(0, 0), 0);
}
