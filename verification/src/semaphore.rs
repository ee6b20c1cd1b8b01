//! Counting semaphore that remembers which tasks hold how many units.
use std::collections::VecDeque;
use vstd::prelude::*;

verus! {

/// Abstract state of a semaphore.
pub struct SemaphoreState {
    /// Free units; a negative value counts the tasks that wait.
    pub count: int,
    /// Tasks (by id) blocked in `down`, oldest first.
    pub wait_queue: Seq<usize>,
    /// `(task id, units held)` in the order the tasks first acquired.
    pub holders: Seq<(usize, isize)>,
}

/// Data of a semaphore.
pub struct SemaphoreInner {
    pub count: isize,
    pub wait_queue: VecDeque<usize>,
    pub holders: Vec<(usize, isize)>,
}

/// A counting semaphore.
pub struct Semaphore {
    pub inner: SemaphoreInner,
}

/// The index of the first holder entry of task `tid`, if any.
pub open spec fn holder_index(holders: Seq<(usize, isize)>, tid: usize) -> Option<int> {
    if exists|k: int|
        0 <= k < holders.len() && holders[k].0 == tid && forall|m: int|
            0 <= m < k ==> holders[m].0 != tid {
        Some(
            choose|k: int|
                0 <= k < holders.len() && holders[k].0 == tid && forall|m: int|
                    0 <= m < k ==> holders[m].0 != tid,
        )
    } else {
        None
    }
}

/// Units of the semaphore that task `tid` holds.
pub open spec fn units_held(holders: Seq<(usize, isize)>, tid: usize) -> int {
    match holder_index(holders, tid) {
        Some(k) => holders[k].1 as int,
        None => 0,
    }
}

/// Holder list after task `tid` obtained one more unit.
pub open spec fn record_hold(holders: Seq<(usize, isize)>, tid: usize) -> Seq<(usize, isize)> {
    match holder_index(holders, tid) {
        Some(k) => holders.update(k, (tid, (holders[k].1 + 1) as isize)),
        None => holders.push((tid, 1isize)),
    }
}

/// Holder list after task `tid` gave one unit back; an entry that drops to
/// zero is removed.
pub open spec fn release_hold(holders: Seq<(usize, isize)>, tid: usize) -> Seq<(usize, isize)> {
    match holder_index(holders, tid) {
        Some(k) => if holders[k].1 > 1 {
            holders.update(k, (tid, (holders[k].1 - 1) as isize))
        } else {
            holders.remove(k)
        },
        None => holders,
    }
}

/// Holder entries name distinct tasks and each holds at least one unit;
/// no task waits twice.
pub open spec fn state_wf(s: SemaphoreState) -> bool {
    &&& forall|a: int, b: int|
        0 <= a < s.holders.len() && 0 <= b < s.holders.len() && a != b ==> s.holders[a].0
            != s.holders[b].0
    &&& forall|a: int| 0 <= a < s.holders.len() ==> #[trigger] s.holders[a].1 > 0
    &&& s.wait_queue.no_duplicates()
}

/// State after `down` by task `tid`, and whether the task got a unit at once.
pub open spec fn down_step(s: SemaphoreState, tid: usize) -> (SemaphoreState, bool) {
    if s.count - 1 >= 0 {
        (
            SemaphoreState {
                count: s.count - 1,
                wait_queue: s.wait_queue,
                holders: record_hold(s.holders, tid),
            },
            true,
        )
    } else {
        (
            SemaphoreState {
                count: s.count - 1,
                wait_queue: if s.wait_queue.contains(tid) {
                    s.wait_queue
                } else {
                    s.wait_queue.push(tid)
                },
                holders: s.holders,
            },
            false,
        )
    }
}

/// State after `up` by task `tid`, and the task woken, if any.
pub open spec fn up_step(s: SemaphoreState, tid: usize) -> (SemaphoreState, Option<usize>) {
    let holders = release_hold(s.holders, tid);
    if s.count + 1 <= 0 && s.wait_queue.len() > 0 {
        (
            SemaphoreState {
                count: s.count + 1,
                wait_queue: s.wait_queue.drop_first(),
                holders,
            },
            Some(s.wait_queue[0]),
        )
    } else {
        (SemaphoreState { count: s.count + 1, wait_queue: s.wait_queue, holders }, None)
    }
}

/// State after a task woken from the wait queue took its unit.
pub open spec fn wakeup_step(s: SemaphoreState, tid: usize) -> SemaphoreState {
    SemaphoreState { holders: record_hold(s.holders, tid), ..s }
}

impl View for Semaphore {
    type V = SemaphoreState;

    open spec fn view(&self) -> SemaphoreState {
        SemaphoreState {
            count: self.inner.count as int,
            wait_queue: self.inner.wait_queue@,
            holders: self.inner.holders@,
        }
    }
}

proof fn lemma_holder_index_found(holders: Seq<(usize, isize)>, tid: usize, k: int)
    requires
        0 <= k < holders.len(),
        holders[k].0 == tid,
        forall|m: int| 0 <= m < k ==> holders[m].0 != tid,
    ensures
        holder_index(holders, tid) == Some(k),
{
    let k2 = choose|k2: int|
        0 <= k2 < holders.len() && holders[k2].0 == tid && forall|m: int|
            0 <= m < k2 ==> holders[m].0 != tid;
    if k2 < k {
        assert(holders[k2].0 != tid);
    } else if k < k2 {
        assert(holders[k].0 != tid);
    }
}

proof fn lemma_holder_index_absent(holders: Seq<(usize, isize)>, tid: usize)
    requires
        forall|m: int| 0 <= m < holders.len() ==> holders[m].0 != tid,
    ensures
        holder_index(holders, tid) == None::<int>,
{
}

impl Semaphore {
    /// Holder entries are well formed and the wait queue has no repeats.
    pub open spec fn wf(&self) -> bool {
        state_wf(self@)
    }

    /// Units task `tid` holds.
    pub open spec fn held_by_task(&self, tid: usize) -> int {
        units_held(self@.holders, tid)
    }

    /// Creates a semaphore with `res_count` free units, no waiters and no holders.
    pub fn new(res_count: usize) -> (sem: Self)
        ensures
            sem@.count == res_count as isize,
            sem@.wait_queue == Seq::<usize>::empty(),
            sem@.holders == Seq::<(usize, isize)>::empty(),
            sem.wf(),
    {
        Semaphore {
            inner: SemaphoreInner {
                count: res_count as isize,
                wait_queue: VecDeque::new(),
                holders: Vec::new(),
            },
        }
    }

    /// Finds the first holder entry of `tid`.
    fn find_holder(&self, tid: usize) -> (k: Option<usize>)
        ensures
            match k {
                Some(i) => holder_index(self@.holders, tid) == Some(i as int),
                None => holder_index(self@.holders, tid) == None::<int>,
            },
    {
        let n = self.inner.holders.len();
        for i in 0..n
            invariant
                n == self@.holders.len(),
                forall|m: int| 0 <= m < i ==> self@.holders[m].0 != tid,
        {
            if self.inner.holders[i].0 == tid {
                proof {
                    lemma_holder_index_found(self@.holders, tid, i as int);
                }
                return Some(i);
            }
        }
        proof {
            lemma_holder_index_absent(self@.holders, tid);
        }
        None
    }

    /// Credits one more unit to task `tid`.
    fn record_hold(&mut self, tid: usize)
        requires
            old(self).wf(),
            old(self).held_by_task(tid) < isize::MAX,
        ensures
            final(self)@ == wakeup_step(old(self)@, tid),
            final(self).wf(),
    {
        let ghost h = self@.holders;
        match self.find_holder(tid) {
            Some(k) => {
                let c = self.inner.holders[k].1;
                self.inner.holders.set(k, (tid, c + 1));
                proof {
                    let h2 = self@.holders;
                    assert forall|a: int, b: int|
                        0 <= a < h2.len() && 0 <= b < h2.len() && a != b implies h2[a].0
                        != h2[b].0 by {
                        assert(h[k as int].0 == tid);
                    }
                    assert forall|a: int| 0 <= a < h2.len() implies #[trigger] h2[a].1 > 0 by {
                        if a != k {
                            assert(h2[a] == h[a]);
                        }
                    }
                }
            },
            None => {
                self.inner.holders.push((tid, 1));
                proof {
                    let h2 = self@.holders;
                    assert forall|a: int, b: int|
                        0 <= a < h2.len() && 0 <= b < h2.len() && a != b implies h2[a].0
                        != h2[b].0 by {
                        if a == h.len() && b < h.len() {
                            assert(h2[b] == h[b]);
                            if h[b].0 == tid {
                                assert(holder_index(h, tid) is Some) by {
                                    lemma_first_of(h, tid, b);
                                }
                            }
                        } else if b == h.len() && a < h.len() {
                            assert(h2[a] == h[a]);
                            if h[a].0 == tid {
                                assert(holder_index(h, tid) is Some) by {
                                    lemma_first_of(h, tid, a);
                                }
                            }
                        } else {
                            assert(h2[a] == h[a] && h2[b] == h[b]);
                        }
                    }
                    assert forall|a: int| 0 <= a < h2.len() implies #[trigger] h2[a].1 > 0 by {
                        if a < h.len() {
                            assert(h2[a] == h[a]);
                        }
                    }
                }
            },
        }
    }
}

impl Semaphore {
    /// `down` by task `tid`: takes a unit. Returns `true` when the unit was
    /// free and is now credited to `tid`; returns `false` when the task must
    /// block, after queueing it (once) to be woken by `up`.
    pub fn down(&mut self, tid: usize) -> (acquired: bool)
        requires
            old(self).wf(),
            old(self)@.count > isize::MIN,
            old(self).held_by_task(tid) < isize::MAX,
        ensures
            (final(self)@, acquired) == down_step(old(self)@, tid),
            final(self).wf(),
    {
        self.inner.count = self.inner.count - 1;
        if self.inner.count >= 0 {
            self.record_hold(tid);
            true
        } else {
            let n = self.inner.wait_queue.len();
            let mut present = false;
            for i in 0..n
                invariant
                    n == self@.wait_queue.len(),
                    present <==> exists|m: int| 0 <= m < i && self@.wait_queue[m] == tid,
            {
                if self.inner.wait_queue[i] == tid {
                    present = true;
                }
            }
            let ghost q = self@.wait_queue;
            if !present {
                self.inner.wait_queue.push_back(tid);
                proof {
                    assert forall|a: int, b: int|
                        0 <= a < self@.wait_queue.len() && 0 <= b < self@.wait_queue.len() && a
                            != b implies self@.wait_queue[a] != self@.wait_queue[b] by {
                        if a < q.len() && b < q.len() {
                            assert(q[a] != q[b]);
                        }
                    }
                }
            } else {
                assert(q.contains(tid));
            }
            false
        }
    }

    /// Credits the unit to task `tid` once it was woken from the wait queue.
    pub fn acquire_after_wakeup(&mut self, tid: usize)
        requires
            old(self).wf(),
            old(self).held_by_task(tid) < isize::MAX,
        ensures
            final(self)@ == wakeup_step(old(self)@, tid),
            final(self).wf(),
    {
        self.record_hold(tid);
    }

    /// `up` by task `tid`: returns one unit, taking it off what `tid` holds,
    /// and wakes the oldest waiter if tasks were waiting.
    pub fn up(&mut self, tid: usize) -> (woken: Option<usize>)
        requires
            old(self).wf(),
            old(self)@.count < isize::MAX,
        ensures
            (final(self)@, woken) == up_step(old(self)@, tid),
            final(self).wf(),
    {
        let ghost h = self@.holders;
        let found = self.find_holder(tid);
        let ghost k: int = match found {
            Some(i) => i as int,
            None => -1,
        };
        if let Some(i) = found {
            let c = self.inner.holders[i].1;
            if c > 0 {
                self.inner.holders.set(i, (tid, c - 1));
            }
        }
        let ghost h1 = self@.holders;
        assert(forall|a: int| 0 <= a < h1.len() && a != k ==> h1[a] == h[a]);
        let n = self.inner.holders.len();
        let mut kept: Vec<(usize, isize)> = Vec::new();
        for i in 0..n
            invariant
                n == h1.len(),
                self@.holders == h1,
                forall|a: int| 0 <= a < h1.len() && a != k ==> #[trigger] h1[a].1 > 0,
                -1 <= k < h1.len(),
                kept@ == (if 0 <= k < i && h1[k].1 <= 0 {
                    h1.take(i as int).remove(k)
                } else {
                    h1.take(i as int)
                }),
        {
            let e = self.inner.holders[i];
            let ghost before = kept@;
            if e.1 > 0 {
                kept.push(e);
                proof {
                    if 0 <= k < i && h1[k].1 <= 0 {
                        assert(h1.take(i + 1).remove(k) =~= h1.take(i as int).remove(k).push(e));
                    } else {
                        assert(h1.take(i + 1) =~= h1.take(i as int).push(e));
                    }
                }
            } else {
                assert(i == k);
                assert(h1.take(i + 1).remove(k) =~= h1.take(i as int));
            }
        }
        self.inner.holders = kept;
        proof {
            assert(h1.take(n as int) =~= h1);
            lemma_release_shape(h, tid, k, h1, self@.holders);
        }

        self.inner.count = self.inner.count + 1;
        let ghost q = self@.wait_queue;
        if self.inner.count <= 0 {
            let w = self.inner.wait_queue.pop_front();
            proof {
                assert forall|a: int, b: int|
                    0 <= a < self@.wait_queue.len() && 0 <= b < self@.wait_queue.len() && a
                        != b implies self@.wait_queue[a] != self@.wait_queue[b] by {
                    assert(self@.wait_queue[a] == q[a + 1] && self@.wait_queue[b] == q[b + 1]);
                }
                if w is Some {
                    assert(self@.wait_queue =~= q.drop_first());
                }
            }
            w
        } else {
            None
        }
    }

    /// Free units (never below zero), the holder entries, and the waiting
    /// task ids in queue order.
    pub fn get_state_for_deadlock_detection(&self) -> (state: (isize, Vec<(usize, isize)>, Vec<usize>))
        ensures
            state.0 == (if self@.count > 0 {
                self@.count
            } else {
                0
            }),
            state.1@ == self@.holders,
            state.2@ == self@.wait_queue,
    {
        let available_count = if self.inner.count > 0 {
            self.inner.count
        } else {
            0
        };
        let mut holders: Vec<(usize, isize)> = Vec::new();
        let n = self.inner.holders.len();
        for i in 0..n
            invariant
                n == self@.holders.len(),
                holders@ == self@.holders.take(i as int),
        {
            holders.push(self.inner.holders[i]);
            assert(self@.holders.take(i + 1) =~= self@.holders.take(i as int).push(
                self@.holders[i as int],
            ));
        }
        let mut waiters: Vec<usize> = Vec::new();
        let w = self.inner.wait_queue.len();
        for i in 0..w
            invariant
                w == self@.wait_queue.len(),
                waiters@ == self@.wait_queue.take(i as int),
        {
            waiters.push(self.inner.wait_queue[i]);
            assert(self@.wait_queue.take(i + 1) =~= self@.wait_queue.take(i as int).push(
                self@.wait_queue[i as int],
            ));
        }
        assert(self@.holders.take(n as int) =~= self@.holders);
        assert(self@.wait_queue.take(w as int) =~= self@.wait_queue);
        (available_count, holders, waiters)
    }
}

/// The holder list that `up` builds is `release_hold` of the old one and
/// stays well formed.
proof fn lemma_release_shape(
    h: Seq<(usize, isize)>,
    tid: usize,
    k: int,
    h1: Seq<(usize, isize)>,
    r: Seq<(usize, isize)>,
)
    requires
        forall|a: int, b: int|
            0 <= a < h.len() && 0 <= b < h.len() && a != b ==> h[a].0 != h[b].0,
        forall|a: int| 0 <= a < h.len() ==> #[trigger] h[a].1 > 0,
        k == -1 ==> holder_index(h, tid) == None::<int>,
        0 <= k ==> holder_index(h, tid) == Some(k),
        -1 <= k < h.len(),
        h1.len() == h.len(),
        forall|a: int| 0 <= a < h1.len() && a != k ==> h1[a] == h[a],
        0 <= k ==> h1[k] == (tid, (h[k].1 - 1) as isize),
        r == (if 0 <= k && h1[k].1 <= 0 {
            h1.remove(k)
        } else {
            h1
        }),
    ensures
        r == release_hold(h, tid),
        forall|a: int, b: int|
            0 <= a < r.len() && 0 <= b < r.len() && a != b ==> r[a].0 != r[b].0,
        forall|a: int| 0 <= a < r.len() ==> #[trigger] r[a].1 > 0,
{
    if k == -1 {
        assert(h1 =~= h);
    } else {
        assert(h[k].0 == tid);
        if h[k].1 > 1 {
            assert(h1 =~= h.update(k, (tid, (h[k].1 - 1) as isize)));
            assert forall|a: int, b: int|
                0 <= a < r.len() && 0 <= b < r.len() && a != b implies r[a].0 != r[b].0 by {
                if a != k && b != k {
                    assert(r[a] == h[a] && r[b] == h[b]);
                } else if a == k {
                    assert(r[b] == h[b]);
                } else {
                    assert(r[a] == h[a]);
                }
            }
            assert forall|a: int| 0 <= a < r.len() implies #[trigger] r[a].1 > 0 by {
                if a != k {
                    assert(r[a] == h[a]);
                }
            }
        } else {
            assert(h1.remove(k) =~= h.remove(k));
            assert forall|a: int, b: int|
                0 <= a < r.len() && 0 <= b < r.len() && a != b implies r[a].0 != r[b].0 by {
                let a2 = if a < k {
                    a
                } else {
                    a + 1
                };
                let b2 = if b < k {
                    b
                } else {
                    b + 1
                };
                assert(r[a] == h[a2] && r[b] == h[b2]);
            }
            assert forall|a: int| 0 <= a < r.len() implies #[trigger] r[a].1 > 0 by {
                let a2 = if a < k {
                    a
                } else {
                    a + 1
                };
                assert(r[a] == h[a2]);
            }
        }
    }
}

/// If some entry names `tid`, a first such entry exists.
proof fn lemma_first_of(holders: Seq<(usize, isize)>, tid: usize, b: int)
    requires
        0 <= b < holders.len(),
        holders[b].0 == tid,
    ensures
        holder_index(holders, tid) is Some,
    decreases b,
{
    if exists|m: int| 0 <= m < b && holders[m].0 == tid {
        let m = choose|m: int| 0 <= m < b && holders[m].0 == tid;
        lemma_first_of(holders, tid, m);
    } else {
        lemma_holder_index_found(holders, tid, b);
    }
}

} // verus!

verus! {

/// A `down` that obtains a unit at once, followed by an `up` by the same
/// task, leaves the semaphore exactly as it was and wakes nobody.
pub proof fn lemma_down_then_up_restores(s: SemaphoreState, tid: usize)
    requires
        state_wf(s),
        s.count >= 1,
        units_held(s.holders, tid) < isize::MAX,
    ensures
        down_step(s, tid).1,
        up_step(down_step(s, tid).0, tid) == (s, None::<usize>),
{
    let h = s.holders;
    let h2 = record_hold(h, tid);
    match holder_index(h, tid) {
        Some(k) => {
            assert(h2[k].0 == tid);
            assert forall|m: int| 0 <= m < k implies h2[m].0 != tid by {
                assert(h2[m] == h[m]);
            }
            lemma_holder_index_found(h2, tid, k);
            assert(release_hold(h2, tid) =~= h);
        },
        None => {
            assert forall|m: int| 0 <= m < h.len() implies h2[m].0 != tid by {
                assert(h2[m] == h[m]);
                if h[m].0 == tid {
                    lemma_first_of(h, tid, m);
                }
            }
            lemma_holder_index_found(h2, tid, h.len() as int);
            assert(release_hold(h2, tid) =~= h);
        },
    }
    let (s1, acquired) = down_step(s, tid);
    assert(up_step(s1, tid).0 =~= s);
}

} // verus!

verus! {

/// Holder entries name distinct tasks.
pub open spec fn distinct_holders(holders: Seq<(usize, isize)>) -> bool {
    forall|a: int, b: int|
        0 <= a < holders.len() && 0 <= b < holders.len() && a != b ==> holders[a].0
            != holders[b].0
}

pub(crate) proof fn lemma_units_held_at(holders: Seq<(usize, isize)>, tid: usize, k: int)
    requires
        distinct_holders(holders),
        0 <= k < holders.len(),
        holders[k].0 == tid,
    ensures
        units_held(holders, tid) == holders[k].1,
{
    assert forall|m: int| 0 <= m < k implies holders[m].0 != tid by {
        assert(holders[m].0 != holders[k].0);
    }
    lemma_holder_index_found(holders, tid, k);
}

pub(crate) proof fn lemma_units_held_absent(holders: Seq<(usize, isize)>, tid: usize)
    requires
        forall|m: int| 0 <= m < holders.len() ==> holders[m].0 != tid,
    ensures
        units_held(holders, tid) == 0,
{
    lemma_holder_index_absent(holders, tid);
}

/// Reads the holding of task `t` from the entry naming it, if any.
proof fn lemma_units_held_entry(holders: Seq<(usize, isize)>, t: usize)
    requires
        distinct_holders(holders),
    ensures
        (exists|k: int| 0 <= k < holders.len() && holders[k].0 == t) || units_held(holders, t)
            == 0,
        forall|k: int|
            0 <= k < holders.len() && holders[k].0 == t ==> units_held(holders, t)
                == #[trigger] holders[k].1,
{
    if !(exists|k: int| 0 <= k < holders.len() && holders[k].0 == t) {
        lemma_units_held_absent(holders, t);
    }
    assert forall|k: int|
        0 <= k < holders.len() && holders[k].0 == t implies units_held(holders, t)
        == #[trigger] holders[k].1 by {
        lemma_units_held_at(holders, t, k);
    }
}

/// An `up` by task `tid` takes one unit off what `tid` holds (nothing when
/// it holds none) and leaves every other task's holding as it was, whether
/// or not a waiter is woken; the free count grows by one, and the task
/// woken, if any, is the oldest waiter.
pub proof fn lemma_up_returns_one_unit(s: SemaphoreState, tid: usize, t: usize)
    requires
        state_wf(s),
    ensures
        units_held(up_step(s, tid).0.holders, tid) == if units_held(s.holders, tid) > 0 {
            units_held(s.holders, tid) - 1
        } else {
            0
        },
        t != tid ==> units_held(up_step(s, tid).0.holders, t) == units_held(s.holders, t),
        up_step(s, tid).0.count == s.count + 1,
        up_step(s, tid).1 matches Some(w) ==> s.wait_queue.len() > 0 && w == s.wait_queue[0]
            && s.count < 0,
{
    let h = s.holders;
    let r = release_hold(h, tid);
    assert(up_step(s, tid).0.holders == r);
    lemma_units_held_entry(h, tid);
    lemma_units_held_entry(h, t);
    match holder_index(h, tid) {
        Some(k) => {
            assert(h[k].0 == tid);
            lemma_units_held_at(h, tid, k);
            if h[k].1 > 1 {
                assert(distinct_holders(r)) by {
                    assert forall|a: int, b: int|
                        0 <= a < r.len() && 0 <= b < r.len() && a != b implies r[a].0 != r[b].0 by {
                        assert(r[a].0 == h[a].0 && r[b].0 == h[b].0);
                    }
                }
                lemma_units_held_at(r, tid, k);
                lemma_units_held_entry(r, t);
                if t != tid {
                    if exists|j: int| 0 <= j < h.len() && h[j].0 == t {
                        let j = choose|j: int| 0 <= j < h.len() && h[j].0 == t;
                        assert(r[j] == h[j]);
                    } else {
                        assert forall|j: int| 0 <= j < r.len() implies r[j].0 != t by {
                            assert(r[j].0 == h[j].0);
                        }
                        lemma_units_held_absent(r, t);
                    }
                }
            } else {
                assert(h[k].1 == 1);
                assert(distinct_holders(r)) by {
                    assert forall|a: int, b: int|
                        0 <= a < r.len() && 0 <= b < r.len() && a != b implies r[a].0 != r[b].0 by {
                        let a2 = if a < k { a } else { a + 1 };
                        let b2 = if b < k { b } else { b + 1 };
                        assert(r[a] == h[a2] && r[b] == h[b2]);
                    }
                }
                assert forall|j: int| 0 <= j < r.len() implies r[j].0 != tid by {
                    let j2 = if j < k { j } else { j + 1 };
                    assert(r[j] == h[j2]);
                    assert(h[j2].0 != h[k].0);
                }
                lemma_units_held_absent(r, tid);
                lemma_units_held_entry(r, t);
                if t != tid {
                    if exists|j: int| 0 <= j < h.len() && h[j].0 == t {
                        let j = choose|j: int| 0 <= j < h.len() && h[j].0 == t;
                        assert(j != k);
                        let j2 = if j < k { j } else { j - 1 };
                        assert(r[j2] == h[j]);
                    } else {
                        assert forall|j: int| 0 <= j < r.len() implies r[j].0 != t by {
                            let j2 = if j < k { j } else { j + 1 };
                            assert(r[j] == h[j2]);
                        }
                        lemma_units_held_absent(r, t);
                    }
                }
            }
        },
        None => {
            assert(r == h);
            assert forall|m: int| 0 <= m < h.len() implies h[m].0 != tid by {
                if h[m].0 == tid {
                    lemma_first_of(h, tid, m);
                }
            }
            lemma_units_held_absent(h, tid);
        },
    }
}

/// A `down` that obtains a unit credits exactly one more unit to the caller
/// and leaves every other task's holding as it was; a `down` that blocks
/// changes no holding and queues the caller (once) at the end.
pub proof fn lemma_down_credits_one_unit(s: SemaphoreState, tid: usize, t: usize)
    requires
        state_wf(s),
        units_held(s.holders, tid) < isize::MAX,
    ensures
        down_step(s, tid).1 <==> s.count >= 1,
        down_step(s, tid).0.count == s.count - 1,
        down_step(s, tid).1 ==> units_held(down_step(s, tid).0.holders, tid) == units_held(
            s.holders,
            tid,
        ) + 1,
        down_step(s, tid).1 && t != tid ==> units_held(down_step(s, tid).0.holders, t)
            == units_held(s.holders, t),
        !down_step(s, tid).1 ==> down_step(s, tid).0.holders == s.holders
            && down_step(s, tid).0.wait_queue.contains(tid)
            && down_step(s, tid).0.wait_queue.len() == s.wait_queue.len() + if s.wait_queue.contains(tid) {
                0int
            } else {
                1int
            },
{
    let h = s.holders;
    let r = record_hold(h, tid);
    lemma_units_held_entry(h, tid);
    lemma_units_held_entry(h, t);
    if s.count >= 1 {
        match holder_index(h, tid) {
            Some(k) => {
                assert(h[k].0 == tid);
                lemma_units_held_at(h, tid, k);
                assert(distinct_holders(r)) by {
                    assert forall|a: int, b: int|
                        0 <= a < r.len() && 0 <= b < r.len() && a != b implies r[a].0 != r[b].0 by {
                        assert(r[a].0 == h[a].0 && r[b].0 == h[b].0);
                    }
                }
                lemma_units_held_at(r, tid, k);
                lemma_units_held_entry(r, t);
                if t != tid {
                    if exists|j: int| 0 <= j < h.len() && h[j].0 == t {
                        let j = choose|j: int| 0 <= j < h.len() && h[j].0 == t;
                        assert(r[j] == h[j]);
                    } else {
                        assert forall|j: int| 0 <= j < r.len() implies r[j].0 != t by {
                            assert(r[j].0 == h[j].0);
                        }
                        lemma_units_held_absent(r, t);
                    }
                }
            },
            None => {
                assert forall|m: int| 0 <= m < h.len() implies h[m].0 != tid by {
                    if h[m].0 == tid {
                        lemma_first_of(h, tid, m);
                    }
                }
                lemma_units_held_absent(h, tid);
                assert(distinct_holders(r)) by {
                    assert forall|a: int, b: int|
                        0 <= a < r.len() && 0 <= b < r.len() && a != b implies r[a].0 != r[b].0 by {
                        if a < h.len() {
                            assert(r[a] == h[a]);
                        }
                        if b < h.len() {
                            assert(r[b] == h[b]);
                        }
                    }
                }
                lemma_units_held_at(r, tid, h.len() as int);
                lemma_units_held_entry(r, t);
                if t != tid {
                    if exists|j: int| 0 <= j < h.len() && h[j].0 == t {
                        let j = choose|j: int| 0 <= j < h.len() && h[j].0 == t;
                        assert(r[j] == h[j]);
                    } else {
                        assert forall|j: int| 0 <= j < r.len() implies r[j].0 != t by {
                            if j < h.len() {
                                assert(r[j] == h[j]);
                            }
                        }
                        lemma_units_held_absent(r, t);
                    }
                }
            },
        }
    } else {
        let q = s.wait_queue;
        if !q.contains(tid) {
            assert(q.push(tid)[q.len() as int] == tid);
        }
    }
}

} // verus!
