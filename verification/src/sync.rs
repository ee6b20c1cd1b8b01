//! Decisions of the synchronisation syscalls: resource tables, deadlock
//! avoidance for mutexes and semaphores, and the detection switch.
use vstd::prelude::*;
use crate::banker::{is_safe, is_safe_state, has_shape, holdings_nonnegative};
use crate::matrix::{
    filled, zero_matrix, write_pairs_in_column, mark_rows_in_column, last_value_for,
};
use crate::semaphore::{
    Semaphore, SemaphoreState, down_step, up_step, units_held, lemma_units_held_at,
    lemma_units_held_absent,
};

verus! {

/// Returned when a request is refused because granting it could deadlock.
pub const DEADLOCK: isize = -0xDEAD;

/// The two mutex implementations a process can ask for.
#[derive(PartialEq, Eq, Structural, Clone, Copy, Debug)]
pub enum MutexKind {
    Spin,
    Blocking,
}

/// What deadlock detection reads of a mutex: its owner and its waiters (task ids).
pub struct MutexSnapshot {
    pub owner: Option<usize>,
    pub waiters: Vec<usize>,
}

/// How a `down` on a semaphore ended.
#[derive(PartialEq, Eq, Structural, Clone, Copy, Debug)]
pub enum SemaphoreDownOutcome {
    /// Refused: waiting here could leave the tasks deadlocked.
    Deadlock,
    /// The unit was free and is now held by the caller.
    Acquired,
    /// The caller was queued and must block until an `up` wakes it.
    Blocked,
}

impl SemaphoreDownOutcome {
    /// The syscall's return value: `DEADLOCK` when refused, else `0`.
    pub fn code(&self) -> (c: isize)
        ensures
            c == (if *self == SemaphoreDownOutcome::Deadlock {
                DEADLOCK
            } else {
                0
            }),
    {
        match self {
            SemaphoreDownOutcome::Deadlock => DEADLOCK,
            _ => 0,
        }
    }
}

/// The lowest index of an empty slot, if any.
pub open spec fn first_free_slot<T>(list: Seq<Option<T>>) -> Option<int> {
    if exists|k: int|
        0 <= k < list.len() && list[k] is None && forall|m: int|
            0 <= m < k ==> list[m] is Some {
        Some(
            choose|k: int|
                0 <= k < list.len() && list[k] is None && forall|m: int|
                    0 <= m < k ==> list[m] is Some,
        )
    } else {
        None
    }
}

/// The id a new object receives: the lowest empty slot, else a new slot at the end.
pub open spec fn slot_for<T>(list: Seq<Option<T>>) -> int {
    match first_free_slot(list) {
        Some(k) => k,
        None => list.len() as int,
    }
}

/// The table after `item` was stored under `slot_for(list)`.
pub open spec fn list_after_install<T>(list: Seq<Option<T>>, item: T) -> Seq<Option<T>> {
    match first_free_slot(list) {
        Some(k) => list.update(k, Some(item)),
        None => list.push(Some(item)),
    }
}

proof fn lemma_first_free_slot_found<T>(list: Seq<Option<T>>, i: int)
    requires
        0 <= i < list.len(),
        list[i] is None,
        forall|m: int| 0 <= m < i ==> list[m] is Some,
    ensures
        first_free_slot(list) == Some(i),
{
    assert(list[i] is None && forall|m: int| 0 <= m < i ==> list[m] is Some);
    let k = choose|k: int|
        0 <= k < list.len() && list[k] is None && forall|m: int| 0 <= m < k ==> list[m] is Some;
    if k < i {
        assert(list[k] is Some);
    } else if i < k {
        assert(list[i] is Some);
    }
}

/// Stores `item` in the lowest empty slot, or in a new slot at the end, and
/// returns the slot's index.
pub fn install_in_free_slot<T>(list: &mut Vec<Option<T>>, item: T) -> (id: usize)
    ensures
        id == slot_for(old(list)@),
        final(list)@ == list_after_install(old(list)@, item),
{
    let n = list.len();
    let mut i: usize = 0;
    while i < n
        invariant
            list@ == old(list)@,
            n == list@.len(),
            i <= n,
            forall|m: int| 0 <= m < i ==> list@[m] is Some,
        decreases n - i,
    {
        if list[i].is_none() {
            proof {
                lemma_first_free_slot_found(list@, i as int);
            }
            list.set(i, Some(item));
            return i;
        }
        i = i + 1;
    }
    assert(first_free_slot(list@) == None::<int>);
    list.push(Some(item));
    n
}

/// Creates a mutex (spinning unless `blocking`) and returns its id: the
/// lowest free slot of the process's mutex table, else a new slot.
pub fn sys_mutex_create(mutex_list: &mut Vec<Option<MutexKind>>, blocking: bool) -> (id: isize)
    requires
        old(mutex_list)@.len() < isize::MAX,
    ensures
        id == slot_for(old(mutex_list)@),
        final(mutex_list)@ == list_after_install(
            old(mutex_list)@,
            if blocking {
                MutexKind::Blocking
            } else {
                MutexKind::Spin
            },
        ),
{
    let kind = if !blocking {
        MutexKind::Spin
    } else {
        MutexKind::Blocking
    };
    let id = install_in_free_slot(mutex_list, kind);
    id as isize
}

/// Creates a condition variable and returns its id: the lowest free slot
/// of the process's condition-variable table, else a new slot.
pub fn sys_condvar_create<T>(condvar_list: &mut Vec<Option<T>>, condvar: T) -> (id: isize)
    requires
        old(condvar_list)@.len() < isize::MAX,
    ensures
        id == slot_for(old(condvar_list)@),
        final(condvar_list)@ == list_after_install(old(condvar_list)@, condvar),
{
    let id = install_in_free_slot(condvar_list, condvar);
    id as isize
}

/// Every semaphore in the table is well formed.
pub open spec fn semaphore_table_wf(list: Seq<Option<Semaphore>>) -> bool {
    forall|i: int| 0 <= i < list.len() && #[trigger] list[i] is Some ==> list[i]->0.wf()
}

/// Creates a semaphore with `res_count` units and returns its id: the
/// lowest free slot of the semaphore table, else a new slot.
pub fn sys_semaphore_create(semaphore_list: &mut Vec<Option<Semaphore>>, res_count: usize) -> (id:
    isize)
    requires
        old(semaphore_list)@.len() < isize::MAX,
        semaphore_table_wf(old(semaphore_list)@),
    ensures
        id == slot_for(old(semaphore_list)@),
        final(semaphore_list)@.len() == (if id == old(semaphore_list)@.len() {
            old(semaphore_list)@.len() + 1int
        } else {
            old(semaphore_list)@.len() as int
        }),
        forall|j: int|
            0 <= j < old(semaphore_list)@.len() && j != id ==> #[trigger] final(semaphore_list)@[j]
                == old(semaphore_list)@[j],
        final(semaphore_list)@[id as int] is Some,
        final(semaphore_list)@[id as int]->0@ == (SemaphoreState {
            count: res_count as isize as int,
            wait_queue: Seq::empty(),
            holders: Seq::empty(),
        }),
        semaphore_table_wf(final(semaphore_list)@),
{
    let sem = Semaphore::new(res_count);
    let ghost sv = sem;
    let id = install_in_free_slot(semaphore_list, sem);
    proof {
        let old_list = old(semaphore_list)@;
        assert(semaphore_list@[id as int] == Some(sv));
        assert forall|i: int|
            0 <= i < semaphore_list@.len() && #[trigger] semaphore_list@[i] is Some implies semaphore_list@[i]->0.wf() by {
            if i != id {
                assert(semaphore_list@[i] == old_list[i]);
            }
        }
    }
    id as isize
}

/// Free units of each semaphore (never below zero); an empty slot offers none.
pub open spec fn semaphore_available(list: Seq<Option<Semaphore>>) -> Seq<isize> {
    Seq::new(
        list.len(),
        |i: int|
            match list[i] {
                Some(s) => if s@.count > 0 {
                    s@.count as isize
                } else {
                    0isize
                },
                None => 0isize,
            },
    )
}

/// Units of semaphore `i` held by task `t`, per the last holder entry naming `t`.
pub open spec fn semaphore_allocation(list: Seq<Option<Semaphore>>, tasks_num: nat) -> Seq<
    Seq<isize>,
> {
    Seq::new(
        tasks_num,
        |t: int|
            Seq::new(
                list.len(),
                |i: int|
                    match list[i] {
                        Some(s) => last_value_for(s@.holders, t, 0),
                        None => 0isize,
                    },
            ),
    )
}

/// One where task `t` waits in the queue of semaphore `i`, else zero.
pub open spec fn semaphore_waiting(list: Seq<Option<Semaphore>>, tasks_num: nat) -> Seq<
    Seq<isize>,
> {
    Seq::new(
        tasks_num,
        |t: int|
            Seq::new(
                list.len(),
                |i: int|
                    match list[i] {
                        Some(s) => if s@.wait_queue.contains(t as usize) {
                            1isize
                        } else {
                            0isize
                        },
                        None => 0isize,
                    },
            ),
    )
}

/// `need` with task `t` also asking for one unit of resource `r`.
pub open spec fn with_request(need: Seq<Seq<isize>>, t: int, r: int) -> Seq<Seq<isize>> {
    need.update(t, need[t].update(r, 1isize))
}

/// With detection on, a `down` by `tid` on semaphore `sem_id` is refused
/// when it would wait and the state with that wait added is unsafe.
pub open spec fn semaphore_down_refused(
    list: Seq<Option<Semaphore>>,
    deadlock_detect_enable: bool,
    tasks_num: nat,
    tid: usize,
    sem_id: usize,
) -> bool {
    &&& deadlock_detect_enable
    &&& list[sem_id as int]->0@.count <= 0
    &&& !is_safe_state(
        tasks_num,
        list.len(),
        semaphore_available(list),
        semaphore_allocation(list, tasks_num),
        with_request(semaphore_waiting(list, tasks_num), tid as int, sem_id as int),
    )
}

proof fn lemma_last_value_nonneg(pairs: Seq<(usize, isize)>, t: int)
    requires
        forall|a: int| 0 <= a < pairs.len() ==> #[trigger] pairs[a].1 > 0,
    ensures
        last_value_for(pairs, t, 0) >= 0,
    decreases pairs.len(),
{
    if pairs.len() > 0 {
        let q = pairs.drop_last();
        assert forall|a: int| 0 <= a < q.len() implies #[trigger] q[a].1 > 0 by {
            assert(q[a] == pairs[a]);
        }
        lemma_last_value_nonneg(q, t);
    }
}

/// The free-unit vector, allocation matrix and waiting matrix of the
/// semaphore table, as deadlock detection sees them.
fn semaphore_tables(list: &Vec<Option<Semaphore>>, tasks_num: usize) -> (tables: (
    Vec<isize>,
    Vec<Vec<isize>>,
    Vec<Vec<isize>>,
))
    ensures
        tables.0@ == semaphore_available(list@),
        tables.1.deep_view() == semaphore_allocation(list@, tasks_num as nat),
        tables.2.deep_view() == semaphore_waiting(list@, tasks_num as nat),
        tables.2@.len() == tasks_num,
        forall|t: int| 0 <= t < tasks_num ==> #[trigger] tables.2@[t]@.len() == list@.len(),
{
    let m = list.len();
    let ghost avail = semaphore_available(list@);
    let ghost alloc = semaphore_allocation(list@, tasks_num as nat);
    let ghost wait = semaphore_waiting(list@, tasks_num as nat);
    let mut available = filled(m, 0);
    let mut allocation = zero_matrix(tasks_num, m);
    let mut need = zero_matrix(tasks_num, m);
    for i in 0..m
        invariant
            m == list@.len(),
            avail == semaphore_available(list@),
            alloc == semaphore_allocation(list@, tasks_num as nat),
            wait == semaphore_waiting(list@, tasks_num as nat),
            available@.len() == m,
            forall|c: int| 0 <= c < m ==> #[trigger] available@[c] == if c < i {
                avail[c]
            } else {
                0
            },
            allocation@.len() == tasks_num,
            need@.len() == tasks_num,
            forall|t: int| 0 <= t < tasks_num ==> #[trigger] allocation@[t]@.len() == m,
            forall|t: int| 0 <= t < tasks_num ==> #[trigger] need@[t]@.len() == m,
            forall|t: int, c: int|
                0 <= t < tasks_num && 0 <= c < m ==> #[trigger] allocation@[t]@[c] == if c < i {
                    alloc[t][c]
                } else {
                    0
                },
            forall|t: int, c: int|
                0 <= t < tasks_num && 0 <= c < m ==> #[trigger] need@[t]@[c] == if c < i {
                    wait[t][c]
                } else {
                    0
                },
    {
        match &list[i] {
            Some(s) => {
                let (count, holders, waiters) = s.get_state_for_deadlock_detection();
                available.set(i, count);
                write_pairs_in_column(&mut allocation, i, &holders);
                mark_rows_in_column(&mut need, i, &waiters);
            },
            None => {},
        }
        proof {
            assert forall|t: int, c: int|
                0 <= t < tasks_num && 0 <= c < m implies #[trigger] allocation@[t]@[c] == if c
                < i + 1 {
                alloc[t][c]
            } else {
                0
            } by {}
            assert forall|t: int, c: int|
                0 <= t < tasks_num && 0 <= c < m implies #[trigger] need@[t]@[c] == if c < i
                + 1 {
                wait[t][c]
            } else {
                0
            } by {}
        }
    }
    assert(available@ =~= avail);
    assert(allocation.deep_view() =~= alloc) by {
        assert forall|t: int| 0 <= t < tasks_num implies #[trigger] allocation.deep_view()[t]
            =~= alloc[t] by {}
    }
    assert(need.deep_view() =~= wait) by {
        assert forall|t: int| 0 <= t < tasks_num implies #[trigger] need.deep_view()[t] =~= wait[t] by {}
    }
    (available, allocation, need)
}


/// `down` by task `tid` on semaphore `sem_id`. With deadlock detection on,
/// a `down` that would wait is refused (and nothing changes) when the state
/// with that wait added is unsafe; otherwise the semaphore's `down` runs.
pub fn sys_semaphore_down(
    semaphore_list: &mut Vec<Option<Semaphore>>,
    deadlock_detect_enable: bool,
    tasks_num: usize,
    tid: usize,
    sem_id: usize,
) -> (outcome: SemaphoreDownOutcome)
    requires
        sem_id < old(semaphore_list)@.len(),
        old(semaphore_list)@[sem_id as int] is Some,
        semaphore_table_wf(old(semaphore_list)@),
        old(semaphore_list)@[sem_id as int]->0@.count > isize::MIN,
        old(semaphore_list)@[sem_id as int]->0.held_by_task(tid) < isize::MAX,
        deadlock_detect_enable && old(semaphore_list)@[sem_id as int]->0@.count <= 0 ==> tid
            < tasks_num,
    ensures
        final(semaphore_list)@.len() == old(semaphore_list)@.len(),
        semaphore_table_wf(final(semaphore_list)@),
        semaphore_down_refused(
            old(semaphore_list)@,
            deadlock_detect_enable,
            tasks_num as nat,
            tid,
            sem_id,
        ) ==> outcome == SemaphoreDownOutcome::Deadlock && final(semaphore_list)@ == old(semaphore_list)@,
        !semaphore_down_refused(
            old(semaphore_list)@,
            deadlock_detect_enable,
            tasks_num as nat,
            tid,
            sem_id,
        ) ==> {
            &&& outcome != SemaphoreDownOutcome::Deadlock
            &&& final(semaphore_list)@[sem_id as int] is Some
            &&& (final(semaphore_list)@[sem_id as int]->0@, outcome
                == SemaphoreDownOutcome::Acquired) == down_step(
                old(semaphore_list)@[sem_id as int]->0@,
                tid,
            )
            &&& forall|j: int|
                0 <= j < old(semaphore_list)@.len() && j != sem_id ==> #[trigger] final(semaphore_list)@[j] == old(semaphore_list)@[j]
        },
{
    let ghost list0 = semaphore_list@;
    if deadlock_detect_enable {
        let will_block = match &semaphore_list[sem_id] {
            Some(s) => s.inner.count <= 0,
            None => false,
        };
        if will_block {
            let m = semaphore_list.len();
            let (available, allocation, mut need) = semaphore_tables(semaphore_list, tasks_num);
            let ghost waiting = need.deep_view();
            need[tid].set(sem_id, 1);
            proof {
                let alloc = allocation.deep_view();
                assert(need.deep_view() =~= with_request(waiting, tid as int, sem_id as int)) by {
                    assert forall|t: int| 0 <= t < tasks_num implies #[trigger] need.deep_view()[t]
                        =~= with_request(waiting, tid as int, sem_id as int)[t] by {}
                }
                assert(has_shape(alloc, tasks_num as nat, m as nat));
                assert(has_shape(need.deep_view(), tasks_num as nat, m as nat));
                assert forall|i: int, j: int| 0 <= i < tasks_num && 0 <= j < m implies #[trigger] alloc[i][j]
                    >= 0 by {
                    if list0[j] is Some {
                        lemma_last_value_nonneg(list0[j]->0@.holders, i);
                    }
                }
                assert(holdings_nonnegative(alloc, tasks_num as nat, m as nat));
            }
            if !is_safe(tasks_num, m, available, &allocation, &need) {
                return SemaphoreDownOutcome::Deadlock;
            }
        }
    }
    let outcome = match &mut semaphore_list[sem_id] {
        Some(s) => if s.down(tid) {
            SemaphoreDownOutcome::Acquired
        } else {
            SemaphoreDownOutcome::Blocked
        },
        None => SemaphoreDownOutcome::Blocked,
    };
    proof {
        assert forall|i: int|
            0 <= i < semaphore_list@.len() && #[trigger] semaphore_list@[i] is Some implies semaphore_list@[i]->0.wf() by {
            if i != sem_id {
                assert(semaphore_list@[i] == list0[i]);
            }
        }
    }
    outcome
}

/// `up` by task `tid` on semaphore `sem_id`; returns the task to wake, if any.
pub fn sys_semaphore_up(semaphore_list: &mut Vec<Option<Semaphore>>, tid: usize, sem_id: usize) -> (woken: Option<usize>)
    requires
        sem_id < old(semaphore_list)@.len(),
        old(semaphore_list)@[sem_id as int] is Some,
        semaphore_table_wf(old(semaphore_list)@),
        old(semaphore_list)@[sem_id as int]->0@.count < isize::MAX,
    ensures
        final(semaphore_list)@.len() == old(semaphore_list)@.len(),
        semaphore_table_wf(final(semaphore_list)@),
        final(semaphore_list)@[sem_id as int] is Some,
        (final(semaphore_list)@[sem_id as int]->0@, woken) == up_step(
            old(semaphore_list)@[sem_id as int]->0@,
            tid,
        ),
        forall|j: int|
            0 <= j < old(semaphore_list)@.len() && j != sem_id ==> #[trigger] final(semaphore_list)@[j] == old(semaphore_list)@[j],
{
    let ghost list0 = semaphore_list@;
    let woken = match &mut semaphore_list[sem_id] {
        Some(s) => s.up(tid),
        None => None,
    };
    proof {
        assert forall|i: int|
            0 <= i < semaphore_list@.len() && #[trigger] semaphore_list@[i] is Some implies semaphore_list@[i]->0.wf() by {
            if i != sem_id {
                assert(semaphore_list@[i] == list0[i]);
            }
        }
    }
    woken
}

/// Credits the unit to task `tid` of semaphore `sem_id` after an `up` woke it.
pub fn semaphore_wakeup(semaphore_list: &mut Vec<Option<Semaphore>>, tid: usize, sem_id: usize)
    requires
        sem_id < old(semaphore_list)@.len(),
        old(semaphore_list)@[sem_id as int] is Some,
        semaphore_table_wf(old(semaphore_list)@),
        old(semaphore_list)@[sem_id as int]->0.held_by_task(tid) < isize::MAX,
    ensures
        final(semaphore_list)@.len() == old(semaphore_list)@.len(),
        semaphore_table_wf(final(semaphore_list)@),
        final(semaphore_list)@[sem_id as int] is Some,
        final(semaphore_list)@[sem_id as int]->0@ == crate::semaphore::wakeup_step(
            old(semaphore_list)@[sem_id as int]->0@,
            tid,
        ),
        forall|j: int|
            0 <= j < old(semaphore_list)@.len() && j != sem_id ==> #[trigger] final(semaphore_list)@[j] == old(semaphore_list)@[j],
{
    let ghost list0 = semaphore_list@;
    match &mut semaphore_list[sem_id] {
        Some(s) => s.acquire_after_wakeup(tid),
        None => {},
    }
    proof {
        assert forall|i: int|
            0 <= i < semaphore_list@.len() && #[trigger] semaphore_list@[i] is Some implies semaphore_list@[i]->0.wf() by {
            if i != sem_id {
                assert(semaphore_list@[i] == list0[i]);
            }
        }
    }
}


/// One for each mutex that nobody owns (and for each empty slot), zero for an owned one.
pub open spec fn mutex_available(mutexes: Seq<Option<MutexSnapshot>>) -> Seq<isize> {
    Seq::new(
        mutexes.len(),
        |i: int|
            match mutexes[i] {
                Some(s) => if s.owner is Some {
                    0isize
                } else {
                    1isize
                },
                None => 1isize,
            },
    )
}

/// One where task `t` owns mutex `i`, else zero.
pub open spec fn mutex_allocation(mutexes: Seq<Option<MutexSnapshot>>, tasks_num: nat) -> Seq<
    Seq<isize>,
> {
    Seq::new(
        tasks_num,
        |t: int|
            Seq::new(
                mutexes.len(),
                |i: int|
                    match mutexes[i] {
                        Some(s) => if s.owner == Some(t as usize) {
                            1isize
                        } else {
                            0isize
                        },
                        None => 0isize,
                    },
            ),
    )
}

/// One where task `t` waits for mutex `i`, else zero.
pub open spec fn mutex_waiting(mutexes: Seq<Option<MutexSnapshot>>, tasks_num: nat) -> Seq<
    Seq<isize>,
> {
    Seq::new(
        tasks_num,
        |t: int|
            Seq::new(
                mutexes.len(),
                |i: int|
                    match mutexes[i] {
                        Some(s) => if s.waiters@.contains(t as usize) {
                            1isize
                        } else {
                            0isize
                        },
                        None => 0isize,
                    },
            ),
    )
}

/// Owners and waiters of every mutex are tasks below `tasks_num`.
pub open spec fn mutex_tasks_in_range(mutexes: Seq<Option<MutexSnapshot>>, tasks_num: nat) -> bool {
    forall|i: int|
        0 <= i < mutexes.len() && #[trigger] mutexes[i] is Some ==> {
            &&& (mutexes[i]->0.owner matches Some(o) ==> o < tasks_num)
            &&& forall|k: int|
                0 <= k < mutexes[i]->0.waiters@.len() ==> #[trigger] mutexes[i]->0.waiters@[k]
                    < tasks_num
        }
}

/// With detection on, a lock of mutex `mutex_id` by `tid` is refused when
/// `tid` already owns it, or when it is owned and the state with `tid`
/// waiting for it is unsafe.
pub open spec fn mutex_lock_refused(
    mutexes: Seq<Option<MutexSnapshot>>,
    deadlock_detect_enable: bool,
    tasks_num: nat,
    tid: usize,
    mutex_id: usize,
) -> bool {
    let owner = mutexes[mutex_id as int]->0.owner;
    &&& deadlock_detect_enable
    &&& (owner == Some(tid) || (owner is Some && !is_safe_state(
        tasks_num,
        mutexes.len(),
        mutex_available(mutexes),
        mutex_allocation(mutexes, tasks_num),
        with_request(mutex_waiting(mutexes, tasks_num), tid as int, mutex_id as int),
    )))
}

/// The free vector, allocation matrix and waiting matrix of the mutex table.
fn mutex_tables(mutexes: &Vec<Option<MutexSnapshot>>, tasks_num: usize) -> (tables: (
    Vec<isize>,
    Vec<Vec<isize>>,
    Vec<Vec<isize>>,
))
    requires
        mutex_tasks_in_range(mutexes@, tasks_num as nat),
    ensures
        tables.0@ == mutex_available(mutexes@),
        tables.1.deep_view() == mutex_allocation(mutexes@, tasks_num as nat),
        tables.2.deep_view() == mutex_waiting(mutexes@, tasks_num as nat),
        tables.1@.len() == tasks_num,
        forall|t: int| 0 <= t < tasks_num ==> #[trigger] tables.1@[t]@.len() == mutexes@.len(),
        tables.2@.len() == tasks_num,
        forall|t: int| 0 <= t < tasks_num ==> #[trigger] tables.2@[t]@.len() == mutexes@.len(),
{
    let m = mutexes.len();
    let ghost avail = mutex_available(mutexes@);
    let ghost alloc = mutex_allocation(mutexes@, tasks_num as nat);
    let ghost wait = mutex_waiting(mutexes@, tasks_num as nat);
    let mut available = filled(m, 1);
    let mut allocation = zero_matrix(tasks_num, m);
    let mut need = zero_matrix(tasks_num, m);
    for i in 0..m
        invariant
            m == mutexes@.len(),
            mutex_tasks_in_range(mutexes@, tasks_num as nat),
            avail == mutex_available(mutexes@),
            alloc == mutex_allocation(mutexes@, tasks_num as nat),
            wait == mutex_waiting(mutexes@, tasks_num as nat),
            available@.len() == m,
            forall|c: int| 0 <= c < m ==> #[trigger] available@[c] == if c < i {
                avail[c]
            } else {
                1
            },
            allocation@.len() == tasks_num,
            need@.len() == tasks_num,
            forall|t: int| 0 <= t < tasks_num ==> #[trigger] allocation@[t]@.len() == m,
            forall|t: int| 0 <= t < tasks_num ==> #[trigger] need@[t]@.len() == m,
            forall|t: int, c: int|
                0 <= t < tasks_num && 0 <= c < m ==> #[trigger] allocation@[t]@[c] == if c < i {
                    alloc[t][c]
                } else {
                    0
                },
            forall|t: int, c: int|
                0 <= t < tasks_num && 0 <= c < m ==> #[trigger] need@[t]@[c] == if c < i {
                    wait[t][c]
                } else {
                    0
                },
    {
        match &mutexes[i] {
            Some(s) => {
                if let Some(owner) = s.owner {
                    available.set(i, 0);
                    let ghost before = allocation@;
                    allocation[owner].set(i, 1);
                    proof {
                        assert forall|t: int, c: int|
                            0 <= t < tasks_num && 0 <= c < m && (t != owner || c != i) implies #[trigger] allocation@[t]@[c]
                            == before[t]@[c] by {
                            if t != owner {
                                assert(allocation@[t] == before[t]);
                            }
                        }
                    }
                }
                mark_rows_in_column(&mut need, i, &s.waiters);
            },
            None => {},
        }
        proof {
            assert forall|t: int, c: int|
                0 <= t < tasks_num && 0 <= c < m implies #[trigger] allocation@[t]@[c] == if c
                < i + 1 {
                alloc[t][c]
            } else {
                0
            } by {}
            assert forall|t: int, c: int|
                0 <= t < tasks_num && 0 <= c < m implies #[trigger] need@[t]@[c] == if c < i
                + 1 {
                wait[t][c]
            } else {
                0
            } by {}
        }
    }
    assert(available@ =~= avail);
    assert(allocation.deep_view() =~= alloc) by {
        assert forall|t: int| 0 <= t < tasks_num implies #[trigger] allocation.deep_view()[t]
            =~= alloc[t] by {}
    }
    assert(need.deep_view() =~= wait) by {
        assert forall|t: int| 0 <= t < tasks_num implies #[trigger] need.deep_view()[t] =~= wait[t] by {}
    }
    (available, allocation, need)
}

/// Decides a lock request of task `tid` on mutex `mutex_id`, given what each
/// mutex of the process looks like. Returns `DEADLOCK` when refused (see
/// `mutex_lock_refused`), else `0`, after which the caller takes the lock.
pub fn sys_mutex_lock(
    deadlock_detect_enable: bool,
    tasks_num: usize,
    mutexes: &Vec<Option<MutexSnapshot>>,
    tid: usize,
    mutex_id: usize,
) -> (code: isize)
    requires
        mutex_id < mutexes@.len(),
        mutexes@[mutex_id as int] is Some,
        deadlock_detect_enable ==> tid < tasks_num && mutex_tasks_in_range(mutexes@, tasks_num as nat),
    ensures
        code == (if mutex_lock_refused(mutexes@, deadlock_detect_enable, tasks_num as nat, tid, mutex_id) {
            DEADLOCK
        } else {
            0
        }),
{
    if deadlock_detect_enable {
        let m = mutexes.len();
        let (available, allocation, mut need) = mutex_tables(mutexes, tasks_num);
        assert(allocation@[tid as int]@[mutex_id as int] == allocation.deep_view()[tid as int][mutex_id as int]);
        if allocation[tid][mutex_id] > 0 {
            return DEADLOCK;
        }
        let ghost waiting = need.deep_view();
        need[tid].set(mutex_id, 1);
        if available[mutex_id] == 0 {
            proof {
                let alloc = allocation.deep_view();
                assert(need.deep_view() =~= with_request(waiting, tid as int, mutex_id as int)) by {
                    assert forall|t: int| 0 <= t < tasks_num implies #[trigger] need.deep_view()[t]
                        =~= with_request(waiting, tid as int, mutex_id as int)[t] by {}
                }
                assert(has_shape(alloc, tasks_num as nat, m as nat));
                assert(has_shape(need.deep_view(), tasks_num as nat, m as nat));
                assert(holdings_nonnegative(alloc, tasks_num as nat, m as nat));
            }
            if !is_safe(tasks_num, m, available, &allocation, &need) {
                return DEADLOCK;
            }
        }
    }
    0
}

/// Releases mutex `mutex_id`: checks that the slot holds a mutex and
/// returns `0`; the caller then unlocks it.
pub fn sys_mutex_unlock(mutex_list: &Vec<Option<MutexKind>>, mutex_id: usize) -> (code: isize)
    requires
        mutex_id < mutex_list@.len(),
        mutex_list@[mutex_id as int] is Some,
    ensures
        code == 0,
{
    match &mutex_list[mutex_id] {
        Some(_) => 0,
        None => 0,
    }
}

/// Signals condition variable `condvar_id`: checks that the slot holds one
/// and returns `0`; the caller then signals it.
pub fn sys_condvar_signal<T>(condvar_list: &Vec<Option<T>>, condvar_id: usize) -> (code: isize)
    requires
        condvar_id < condvar_list@.len(),
        condvar_list@[condvar_id as int] is Some,
    ensures
        code == 0,
{
    match &condvar_list[condvar_id] {
        Some(_) => 0,
        None => 0,
    }
}

/// Waits on condition variable `condvar_id` releasing mutex `mutex_id`:
/// checks that both slots are filled and returns `0`; the caller then waits.
pub fn sys_condvar_wait<T>(
    condvar_list: &Vec<Option<T>>,
    mutex_list: &Vec<Option<MutexKind>>,
    condvar_id: usize,
    mutex_id: usize,
) -> (code: isize)
    requires
        condvar_id < condvar_list@.len(),
        condvar_list@[condvar_id as int] is Some,
        mutex_id < mutex_list@.len(),
        mutex_list@[mutex_id as int] is Some,
    ensures
        code == 0,
{
    0
}

/// Turns deadlock detection on (`1`) or off (`0`); any other value is
/// rejected with `-1` and leaves the setting as it was.
pub fn sys_enable_deadlock_detect(deadlock_detect_enable: &mut bool, enabled: usize) -> (code: isize)
    ensures
        enabled == 1 ==> code == 0 && *final(deadlock_detect_enable),
        enabled == 0 ==> code == 0 && !*final(deadlock_detect_enable),
        enabled != 0 && enabled != 1 ==> code == -1 && *final(deadlock_detect_enable) == *old(deadlock_detect_enable),
{
    if enabled == 1 {
        *deadlock_detect_enable = true;
    } else if enabled == 0 {
        *deadlock_detect_enable = false;
    } else {
        return -1;
    }
    0
}

/// Time (in milliseconds) at which a task that sleeps `ms` from `now_ms` is woken.
pub fn sys_sleep(now_ms: usize, ms: usize) -> (expire_ms: usize)
    requires
        now_ms + ms <= usize::MAX,
    ensures
        expire_ms == now_ms + ms,
{
    now_ms + ms
}


/// With deadlock detection off, no lock or `down` request is refused.
pub proof fn lemma_detection_off_never_refuses(
    mutexes: Seq<Option<MutexSnapshot>>,
    semaphores: Seq<Option<Semaphore>>,
    tasks_num: nat,
    tid: usize,
    id: usize,
)
    ensures
        !mutex_lock_refused(mutexes, false, tasks_num, tid, id),
        !semaphore_down_refused(semaphores, false, tasks_num, tid, id),
{
}

/// Locking a mutex that nobody owns is never refused.
pub proof fn lemma_unowned_mutex_never_refused(
    mutexes: Seq<Option<MutexSnapshot>>,
    deadlock_detect_enable: bool,
    tasks_num: nat,
    tid: usize,
    mutex_id: usize,
)
    requires
        mutex_id < mutexes.len(),
        mutexes[mutex_id as int] is Some,
        mutexes[mutex_id as int]->0.owner is None,
    ensures
        !mutex_lock_refused(mutexes, deadlock_detect_enable, tasks_num, tid, mutex_id),
{
}

/// A `down` on a semaphore with a free unit is never refused.
pub proof fn lemma_free_unit_never_refused(
    semaphores: Seq<Option<Semaphore>>,
    deadlock_detect_enable: bool,
    tasks_num: nat,
    tid: usize,
    sem_id: usize,
)
    requires
        sem_id < semaphores.len(),
        semaphores[sem_id as int] is Some,
        semaphores[sem_id as int]->0@.count > 0,
    ensures
        !semaphore_down_refused(semaphores, deadlock_detect_enable, tasks_num, tid, sem_id),
{
}

/// Creating an object fills the lowest empty slot, or appends when there
/// is none; every other slot keeps its content.
pub proof fn lemma_install_fills_lowest_free_slot<T>(list: Seq<Option<T>>, item: T)
    ensures
        0 <= slot_for(list) <= list.len(),
        forall|k: int| 0 <= k < slot_for(list) ==> list[k] is Some,
        slot_for(list) < list.len() ==> list[slot_for(list)] is None,
        list_after_install(list, item)[slot_for(list)] == Some(item),
        forall|k: int|
            0 <= k < list.len() && k != slot_for(list) ==> #[trigger] list_after_install(
                list,
                item,
            )[k] == list[k],
{
    if first_free_slot(list) is None {
        assert forall|k: int| 0 <= k < list.len() implies list[k] is Some by {
            if list[k] is None {
                lemma_free_slot_exists(list, k);
            }
        }
    }
}

proof fn lemma_free_slot_exists<T>(list: Seq<Option<T>>, b: int)
    requires
        0 <= b < list.len(),
        list[b] is None,
    ensures
        first_free_slot(list) is Some,
    decreases b,
{
    if exists|m: int| 0 <= m < b && list[m] is None {
        let m = choose|m: int| 0 <= m < b && list[m] is None;
        lemma_free_slot_exists(list, m);
    } else {
        lemma_first_free_slot_found(list, b);
    }
}

} // verus!

verus! {

/// In the tables that decide a mutex lock, task `t` waits for mutex `i`
/// exactly when `t` appears anywhere in that mutex's waiter list, holds it
/// exactly when it is the owner, and a mutex is free exactly when nobody
/// owns it.
pub proof fn lemma_mutex_tables_meaning(
    mutexes: Seq<Option<MutexSnapshot>>,
    tasks_num: nat,
    t: int,
    i: int,
)
    requires
        0 <= t < tasks_num,
        t <= usize::MAX,
        0 <= i < mutexes.len(),
    ensures
        mutex_waiting(mutexes, tasks_num)[t][i] == (if mutexes[i] is Some && exists|k: int|
            0 <= k < mutexes[i]->0.waiters@.len() && mutexes[i]->0.waiters@[k] as int == t {
            1isize
        } else {
            0isize
        }),
        mutex_allocation(mutexes, tasks_num)[t][i] == (if mutexes[i] is Some
            && mutexes[i]->0.owner == Some(t as usize) {
            1isize
        } else {
            0isize
        }),
        mutex_available(mutexes)[i] == (if mutexes[i] is Some && mutexes[i]->0.owner is Some {
            0isize
        } else {
            1isize
        }),
{
    if mutexes[i] is Some {
        let w = mutexes[i]->0.waiters@;
        lemma_contains_task(w, t);
    }
}

/// In the tables that decide a semaphore `down`, the units of semaphore
/// `i` that task `t` holds are those its holder entry records (whatever its
/// position in the holder list), or zero without an entry; waiting means
/// appearing anywhere in the wait queue; the free units are the positive
/// part of the count.
pub proof fn lemma_semaphore_tables_meaning(
    list: Seq<Option<Semaphore>>,
    tasks_num: nat,
    t: int,
    i: int,
)
    requires
        semaphore_table_wf(list),
        0 <= t < tasks_num,
        t <= usize::MAX,
        0 <= i < list.len(),
    ensures
        semaphore_allocation(list, tasks_num)[t][i] == (match list[i] {
            Some(s) => units_held(s@.holders, t as usize),
            None => 0,
        }),
        list[i] matches Some(s) ==> forall|k: int|
            0 <= k < s@.holders.len() && s@.holders[k].0 as int == t
                ==> semaphore_allocation(list, tasks_num)[t][i] == #[trigger] s@.holders[k].1,
        list[i] matches Some(s) ==> (!exists|k: int|
            0 <= k < s@.holders.len() && s@.holders[k].0 as int == t)
                ==> semaphore_allocation(list, tasks_num)[t][i] == 0,
        semaphore_waiting(list, tasks_num)[t][i] == (if list[i] is Some && exists|k: int|
            0 <= k < list[i]->0@.wait_queue.len() && list[i]->0@.wait_queue[k] as int == t {
            1isize
        } else {
            0isize
        }),
        semaphore_available(list)[i] == (match list[i] {
            Some(s) => if s@.count > 0 {
                s@.count
            } else {
                0
            },
            None => 0,
        }),
{
    if list[i] is Some {
        let s = list[i]->0;
        assert(s.wf());
        let h = s@.holders;
        lemma_last_value_distinct(h, t);
        if exists|k: int| 0 <= k < h.len() && h[k].0 as int == t {
            let k = choose|k: int| 0 <= k < h.len() && h[k].0 as int == t;
            lemma_units_held_at(h, t as usize, k);
        } else {
            assert forall|m: int| 0 <= m < h.len() implies h[m].0 != t as usize by {
                assert(!(h[m].0 as int == t));
            }
            lemma_units_held_absent(h, t as usize);
        }
        lemma_contains_task(s@.wait_queue, t);
    }
}

proof fn lemma_contains_task(w: Seq<usize>, t: int)
    requires
        0 <= t <= usize::MAX,
    ensures
        w.contains(t as usize) <==> exists|k: int| 0 <= k < w.len() && w[k] as int == t,
{
    if exists|k: int| 0 <= k < w.len() && w[k] as int == t {
        let k = choose|k: int| 0 <= k < w.len() && w[k] as int == t;
        assert(w[k] == t as usize);
    }
    if w.contains(t as usize) {
        let k = choose|k: int| 0 <= k < w.len() && w[k] == t as usize;
        assert(w[k] as int == t);
    }
}

/// With distinct task ids, the last entry naming `t` is the only one.
proof fn lemma_last_value_distinct(pairs: Seq<(usize, isize)>, t: int)
    requires
        forall|a: int, b: int|
            0 <= a < pairs.len() && 0 <= b < pairs.len() && a != b ==> pairs[a].0 != pairs[b].0,
    ensures
        forall|k: int|
            0 <= k < pairs.len() && pairs[k].0 as int == t ==> last_value_for(pairs, t, 0)
                == #[trigger] pairs[k].1,
        (!exists|k: int| 0 <= k < pairs.len() && pairs[k].0 as int == t) ==> last_value_for(
            pairs,
            t,
            0,
        ) == 0,
    decreases pairs.len(),
{
    if pairs.len() > 0 {
        let q = pairs.drop_last();
        assert forall|a: int, b: int|
            0 <= a < q.len() && 0 <= b < q.len() && a != b implies q[a].0 != q[b].0 by {
            assert(q[a] == pairs[a] && q[b] == pairs[b]);
        }
        lemma_last_value_distinct(q, t);
        assert forall|k: int|
            0 <= k < pairs.len() && pairs[k].0 as int == t implies last_value_for(pairs, t, 0)
            == #[trigger] pairs[k].1 by {
            if k < pairs.len() - 1 {
                assert(q[k] == pairs[k]);
                assert(pairs[k].0 != pairs[pairs.len() - 1].0);
            }
        }
        if !exists|k: int| 0 <= k < pairs.len() && pairs[k].0 as int == t {
            assert forall|k: int| 0 <= k < q.len() implies !(q[k].0 as int == t) by {
                assert(q[k] == pairs[k]);
            }
            assert(pairs.last() == pairs[pairs.len() - 1]);
        }
    }
}

} // verus!
