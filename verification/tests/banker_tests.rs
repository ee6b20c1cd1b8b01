use kernel_sync::banker::is_safe;

#[test]
fn empty_system_is_safe() {
    assert!(is_safe(0, 0, vec![], &vec![], &vec![]));
}

#[test]
fn textbook_state_is_safe() {
    let available = vec![3, 3, 2];
    let allocation = vec![
        vec![0, 1, 0],
        vec![2, 0, 0],
        vec![3, 0, 2],
        vec![2, 1, 1],
        vec![0, 0, 2],
    ];
    let need = vec![
        vec![7, 4, 3],
        vec![1, 2, 2],
        vec![6, 0, 0],
        vec![0, 1, 1],
        vec![4, 3, 1],
    ];
    assert!(is_safe(5, 3, available, &allocation, &need));
}

#[test]
fn textbook_state_after_large_grant_is_unsafe() {
    // Task 0 was granted (0, 2, 0) more: nobody can finish any longer.
    let available = vec![2, 1, 0];
    let allocation = vec![
        vec![0, 3, 0],
        vec![3, 0, 2],
        vec![3, 0, 2],
        vec![2, 1, 1],
        vec![0, 0, 2],
    ];
    let need = vec![
        vec![7, 2, 3],
        vec![0, 2, 0],
        vec![6, 0, 0],
        vec![0, 1, 1],
        vec![4, 3, 1],
    ];
    // Task 3 needs (0, 1, 1) but only (2, 1, 0) is free.
    assert!(!is_safe(5, 3, available, &allocation, &need));
}

#[test]
fn crossed_mutex_waits_are_unsafe() {
    // Task 0 holds resource 0 and wants 1; task 1 holds 1 and wants 0.
    let allocation = vec![vec![1, 0], vec![0, 1]];
    let need = vec![vec![0, 1], vec![1, 0]];
    assert!(!is_safe(2, 2, vec![0, 0], &allocation, &need));
}

#[test]
fn later_task_can_unblock_earlier_one() {
    // Task 0 waits for what task 1 holds; task 1 needs nothing more.
    let allocation = vec![vec![0], vec![1]];
    let need = vec![vec![1], vec![0]];
    assert!(is_safe(2, 1, vec![0], &allocation, &need));
}

#[test]
fn chain_of_releases_is_safe() {
    // 2 <- 1 <- 0: task 2 runs first, then 1, then 0.
    let allocation = vec![vec![0, 0], vec![1, 0], vec![0, 1]];
    let need = vec![vec![1, 0], vec![0, 1], vec![0, 0]];
    assert!(is_safe(3, 2, vec![0, 0], &allocation, &need));
}

#[test]
fn need_beyond_everything_is_unsafe() {
    let allocation = vec![vec![1]];
    let need = vec![vec![5]];
    assert!(!is_safe(1, 1, vec![2], &allocation, &need));
}

#[test]
fn tasks_with_no_resources_are_safe() {
    assert!(is_safe(3, 0, vec![], &vec![vec![], vec![], vec![]], &vec![vec![], vec![], vec![]]));
}

#[test]
fn extra_columns_and_rows_are_ignored() {
    // Only the first task and the first resource are looked at.
    let allocation = vec![vec![0, 9], vec![9, 9]];
    let need = vec![vec![1, 100], vec![100, 100]];
    assert!(is_safe(1, 1, vec![1, 0], &allocation, &need));
}

#[test]
fn large_holdings_do_not_overflow() {
    let allocation = vec![vec![isize::MAX], vec![isize::MAX], vec![0]];
    let need = vec![vec![0], vec![0], vec![isize::MAX]];
    assert!(is_safe(3, 1, vec![isize::MAX], &allocation, &need));
}
