//! Safety check of the banker's algorithm.
use vstd::prelude::*;

verus! {

/// Units of resource `j` held, in total, by the tasks listed in `order`.
pub open spec fn held_by(allocation: Seq<Seq<isize>>, order: Seq<int>, j: int) -> int
    decreases order.len(),
{
    if order.len() == 0 {
        0
    } else {
        held_by(allocation, order.drop_last(), j) + allocation[order.last()][j]
    }
}

/// Task `t` can obtain everything it still needs once the tasks of `done`
/// have run to completion and returned what they hold.
pub open spec fn can_finish_after(
    resources_num: nat,
    available: Seq<isize>,
    allocation: Seq<Seq<isize>>,
    need: Seq<Seq<isize>>,
    done: Seq<int>,
    t: int,
) -> bool {
    forall|j: int|
        0 <= j < resources_num ==> #[trigger] need[t][j] <= available[j] + held_by(
            allocation,
            done,
            j,
        )
}

/// `order` runs every task exactly once, and each task in it can finish with
/// what is free plus what the tasks before it have returned.
pub open spec fn is_safe_sequence(
    tasks_num: nat,
    resources_num: nat,
    available: Seq<isize>,
    allocation: Seq<Seq<isize>>,
    need: Seq<Seq<isize>>,
    order: Seq<int>,
) -> bool {
    &&& order.no_duplicates()
    &&& forall|k: int| 0 <= k < order.len() ==> 0 <= #[trigger] order[k] < tasks_num
    &&& forall|t: int| 0 <= t < tasks_num ==> #[trigger] order.contains(t)
    &&& forall|k: int|
        0 <= k < order.len() ==> can_finish_after(
            resources_num,
            available,
            allocation,
            need,
            order.take(k),
            #[trigger] order[k],
        )
}

/// The state is safe: some order lets every task run to completion.
pub open spec fn is_safe_state(
    tasks_num: nat,
    resources_num: nat,
    available: Seq<isize>,
    allocation: Seq<Seq<isize>>,
    need: Seq<Seq<isize>>,
) -> bool {
    exists|order: Seq<int>|
        is_safe_sequence(tasks_num, resources_num, available, allocation, need, order)
}

/// `m` has at least `rows` rows, each with at least `cols` entries.
pub open spec fn has_shape(m: Seq<Seq<isize>>, rows: nat, cols: nat) -> bool {
    &&& m.len() >= rows
    &&& forall|i: int| 0 <= i < rows ==> #[trigger] m[i].len() >= cols
}

/// No task holds a negative amount of any resource.
pub open spec fn holdings_nonnegative(
    allocation: Seq<Seq<isize>>,
    tasks_num: nat,
    resources_num: nat,
) -> bool {
    forall|i: int, j: int|
        0 <= i < tasks_num && 0 <= j < resources_num ==> #[trigger] allocation[i][j] >= 0
}

/// Units of resource `j` held by the tasks below `upto` that are marked in `finish`.
spec fn finished_total(allocation: Seq<Seq<isize>>, finish: Seq<bool>, j: int, upto: int) -> int
    decreases upto,
{
    if upto <= 0 {
        0
    } else {
        finished_total(allocation, finish, j, upto - 1) + if finish[upto - 1] {
            allocation[upto - 1][j] as int
        } else {
            0
        }
    }
}

/// Number of tasks below `upto` not marked in `finish`.
spec fn unfinished_count(finish: Seq<bool>, upto: int) -> nat
    decreases upto,
{
    if upto <= 0 {
        0
    } else {
        unfinished_count(finish, upto - 1) + if finish[upto - 1] {
            0nat
        } else {
            1nat
        }
    }
}

/// Some resource that task `i` needs exceeds what `work` offers.
spec fn blocked(need: Seq<Seq<isize>>, work: Seq<i128>, resources_num: nat, i: int) -> bool {
    exists|j: int| 0 <= j < resources_num && need[i][j] > work[j]
}

proof fn lemma_mark_finished(
    allocation: Seq<Seq<isize>>,
    finish: Seq<bool>,
    x: int,
    j: int,
    upto: int,
)
    requires
        0 <= x < upto <= finish.len(),
        !finish[x],
    ensures
        finished_total(allocation, finish.update(x, true), j, upto) == finished_total(
            allocation,
            finish,
            j,
            upto,
        ) + allocation[x][j],
        unfinished_count(finish.update(x, true), upto) + 1 == unfinished_count(finish, upto),
    decreases upto,
{
    if x < upto - 1 {
        lemma_mark_finished(allocation, finish, x, j, upto - 1);
    } else {
        lemma_unchanged_prefix(allocation, finish, finish.update(x, true), j, upto - 1);
    }
}

proof fn lemma_unchanged_prefix(
    allocation: Seq<Seq<isize>>,
    f1: Seq<bool>,
    f2: Seq<bool>,
    j: int,
    upto: int,
)
    requires
        forall|i: int| 0 <= i < upto ==> f1[i] == f2[i],
    ensures
        finished_total(allocation, f1, j, upto) == finished_total(allocation, f2, j, upto),
        unfinished_count(f1, upto) == unfinished_count(f2, upto),
    decreases upto,
{
    if upto > 0 {
        lemma_unchanged_prefix(allocation, f1, f2, j, upto - 1);
    }
}

proof fn lemma_finished_total_bounds(
    allocation: Seq<Seq<isize>>,
    finish: Seq<bool>,
    j: int,
    upto: int,
)
    requires
        0 <= upto,
    ensures
        -upto * 0x8000_0000_0000_0000 <= finished_total(allocation, finish, j, upto) <= upto
            * 0x7fff_ffff_ffff_ffff,
    decreases upto,
{
    if upto > 0 {
        lemma_finished_total_bounds(allocation, finish, j, upto - 1);
        let a = allocation[upto - 1][j] as int;
        assert(-0x8000_0000_0000_0000 <= a <= 0x7fff_ffff_ffff_ffff);
    }
}

/// What the tasks of a duplicate-free list of finished tasks hold never
/// exceeds what all finished tasks hold, when holdings are nonnegative.
proof fn lemma_prefix_within_finished(
    allocation: Seq<Seq<isize>>,
    finish: Seq<bool>,
    p: Seq<int>,
    tasks_num: nat,
    resources_num: nat,
    j: int,
)
    requires
        finish.len() == tasks_num,
        0 <= j < resources_num,
        holdings_nonnegative(allocation, tasks_num, resources_num),
        p.no_duplicates(),
        forall|k: int| 0 <= k < p.len() ==> 0 <= #[trigger] p[k] < tasks_num && finish[p[k]],
    ensures
        held_by(allocation, p, j) <= finished_total(allocation, finish, j, tasks_num as int),
    decreases p.len(),
{
    if p.len() == 0 {
        lemma_finished_total_nonneg(allocation, finish, tasks_num, resources_num, j, tasks_num as int);
    } else {
        let q = p.drop_last();
        let x = p.last();
        let f2 = finish.update(x, false);
        assert forall|k: int| 0 <= k < q.len() implies 0 <= #[trigger] q[k] < tasks_num
            && f2[q[k]] by {
            assert(p[k] == q[k]);
            assert(p[k] != p[p.len() - 1]);
        }
        lemma_prefix_within_finished(allocation, f2, q, tasks_num, resources_num, j);
        lemma_mark_finished(allocation, f2, x, j, tasks_num as int);
        assert(f2.update(x, true) =~= finish);
    }
}

proof fn lemma_finished_total_nonneg(
    allocation: Seq<Seq<isize>>,
    finish: Seq<bool>,
    tasks_num: nat,
    resources_num: nat,
    j: int,
    upto: int,
)
    requires
        0 <= j < resources_num,
        upto <= tasks_num,
        holdings_nonnegative(allocation, tasks_num, resources_num),
    ensures
        finished_total(allocation, finish, j, upto) >= 0,
    decreases upto,
{
    if upto > 0 {
        lemma_finished_total_nonneg(allocation, finish, tasks_num, resources_num, j, upto - 1);
        if finish[upto - 1] {
            assert(allocation[upto - 1][j] >= 0);
        }
    }
}


proof fn lemma_first_unfinished(order: Seq<int>, finish: Seq<bool>, k0: int) -> (k: int)
    requires
        0 <= k0 < order.len(),
        !finish[order[k0]],
    ensures
        0 <= k <= k0,
        !finish[order[k]],
        forall|m: int| 0 <= m < k ==> finish[#[trigger] order[m]],
    decreases k0,
{
    if exists|m: int| 0 <= m < k0 && !finish[#[trigger] order[m]] {
        let m = choose|m: int| 0 <= m < k0 && !finish[#[trigger] order[m]];
        lemma_first_unfinished(order, finish, m)
    } else {
        k0
    }
}

/// When no unfinished task can proceed and holdings are nonnegative, no
/// order lets every task finish.
proof fn lemma_stuck_is_unsafe(
    tasks_num: nat,
    resources_num: nat,
    available: Seq<isize>,
    allocation: Seq<Seq<isize>>,
    need: Seq<Seq<isize>>,
    finish: Seq<bool>,
    work: Seq<i128>,
    t: int,
)
    requires
        finish.len() == tasks_num,
        work.len() == resources_num,
        holdings_nonnegative(allocation, tasks_num, resources_num),
        forall|j: int|
            0 <= j < resources_num ==> #[trigger] work[j] == available[j] + finished_total(
                allocation,
                finish,
                j,
                tasks_num as int,
            ),
        forall|i: int| 0 <= i < tasks_num ==> finish[i] || blocked(need, work, resources_num, i),
        0 <= t < tasks_num,
        !finish[t],
    ensures
        !is_safe_state(tasks_num, resources_num, available, allocation, need),
{
    if is_safe_state(tasks_num, resources_num, available, allocation, need) {
        let order = choose|order: Seq<int>|
            is_safe_sequence(tasks_num, resources_num, available, allocation, need, order);
        assert(order.contains(t));
        let k0 = choose|k0: int| 0 <= k0 < order.len() && order[k0] == t;
        let k = lemma_first_unfinished(order, finish, k0);
        let x = order[k];
        let p = order.take(k);
        assert forall|a: int, b: int| 0 <= a < p.len() && 0 <= b < p.len() && a != b implies p[a]
            != p[b] by {
            assert(p[a] == order[a] && p[b] == order[b]);
        }
        assert(p.no_duplicates());
        assert forall|a: int| 0 <= a < p.len() implies 0 <= #[trigger] p[a] < tasks_num
            && finish[p[a]] by {
            assert(p[a] == order[a]);
        }
        assert(can_finish_after(resources_num, available, allocation, need, p, x));
        assert(blocked(need, work, resources_num, x));
        let j = choose|j: int| 0 <= j < resources_num && need[x][j] > work[j];
        lemma_prefix_within_finished(allocation, finish, p, tasks_num, resources_num, j);
        assert(need[x][j] <= available[j] + held_by(allocation, p, j));
        assert(false);
    }
}

proof fn lemma_within_i128(n: int, v: int)
    by (nonlinear_arith)
    requires
        0 <= n <= 0xffff_ffff_ffff_ffff,
        -(n + 1) * 0x8000_0000_0000_0000 <= v <= (n + 1) * 0x7fff_ffff_ffff_ffff,
    ensures
        i128::MIN <= v <= i128::MAX,
{
}

/// The banker's safety check: repeatedly lets any task whose outstanding
/// needs fit in the free resources run to completion and return what it
/// holds, and reports whether every task finishes.
///
/// A `true` answer always comes with an order that lets every task finish.
/// When no task holds a negative amount, the answer is `true` exactly when
/// such an order exists.
pub fn is_safe(
    tasks_num: usize,
    resources_num: usize,
    available: Vec<isize>,
    allocation: &Vec<Vec<isize>>,
    need: &Vec<Vec<isize>>,
) -> (safe: bool)
    requires
        available.len() >= resources_num,
        has_shape(allocation.deep_view(), tasks_num as nat, resources_num as nat),
        has_shape(need.deep_view(), tasks_num as nat, resources_num as nat),
    ensures
        safe ==> is_safe_state(
            tasks_num as nat,
            resources_num as nat,
            available@,
            allocation.deep_view(),
            need.deep_view(),
        ),
        holdings_nonnegative(allocation.deep_view(), tasks_num as nat, resources_num as nat) ==> (
        safe == is_safe_state(
            tasks_num as nat,
            resources_num as nat,
            available@,
            allocation.deep_view(),
            need.deep_view(),
        )),
{
    let ghost alloc = allocation.deep_view();
    let ghost nd = need.deep_view();
    let ghost n = tasks_num as int;
    let ghost m = resources_num as nat;

    let mut work: Vec<i128> = Vec::new();
    for j in 0..resources_num
        invariant
            available.len() >= resources_num,
            work.len() == j,
            forall|k: int| 0 <= k < j ==> #[trigger] work@[k] == available@[k] as i128,
    {
        work.push(available[j] as i128);
    }
    let mut finish: Vec<bool> = Vec::new();
    for i in 0..tasks_num
        invariant
            finish.len() == i,
            forall|k: int| 0 <= k < i ==> !#[trigger] finish@[k],
    {
        finish.push(false);
    }
    let ghost mut order: Seq<int> = Seq::empty();
    assert forall|j: int| 0 <= j < m implies #[trigger] work@[j] == available@[j]
        + finished_total(alloc, finish@, j, n) by {
        lemma_all_unfinished_total(alloc, finish@, j, n);
    }
    assert forall|j: int| 0 <= j < m implies #[trigger] held_by(alloc, order, j)
        == finished_total(alloc, finish@, j, n) by {
        lemma_all_unfinished_total(alloc, finish@, j, n);
    }

    let mut progress = true;
    while progress
        invariant
            has_shape(alloc, tasks_num as nat, m),
            has_shape(nd, tasks_num as nat, m),
            alloc == allocation.deep_view(),
            nd == need.deep_view(),
            n == tasks_num,
            m == resources_num,
            available.len() >= resources_num,
            finish.len() == tasks_num,
            work.len() == resources_num,
            forall|j: int|
                0 <= j < m ==> #[trigger] work@[j] == available@[j] + finished_total(
                    alloc,
                    finish@,
                    j,
                    n,
                ),
            forall|j: int|
                0 <= j < m ==> #[trigger] held_by(alloc, order, j) == finished_total(
                    alloc,
                    finish@,
                    j,
                    n,
                ),
            order.no_duplicates(),
            forall|k: int| 0 <= k < order.len() ==> 0 <= #[trigger] order[k] < n,
            forall|i: int| 0 <= i < n ==> (#[trigger] finish@[i] <==> order.contains(i)),
            forall|k: int|
                0 <= k < order.len() ==> can_finish_after(
                    m,
                    available@,
                    alloc,
                    nd,
                    order.take(k),
                    #[trigger] order[k],
                ),
            !progress ==> forall|i: int|
                0 <= i < n ==> #[trigger] finish@[i] || blocked(nd, work@, m, i),
        decreases unfinished_count(finish@, n) + if progress {
            1int
        } else {
            0int
        },
    {
        let ghost start = unfinished_count(finish@, n);
        let mut found = false;
        for i in 0..tasks_num
            invariant
                has_shape(alloc, tasks_num as nat, m),
                has_shape(nd, tasks_num as nat, m),
                alloc == allocation.deep_view(),
                nd == need.deep_view(),
                n == tasks_num,
                m == resources_num,
                available.len() >= resources_num,
                finish.len() == tasks_num,
                work.len() == resources_num,
                forall|j: int|
                    0 <= j < m ==> #[trigger] work@[j] == available@[j] + finished_total(
                        alloc,
                        finish@,
                        j,
                        n,
                    ),
                forall|j: int|
                    0 <= j < m ==> #[trigger] held_by(alloc, order, j) == finished_total(
                        alloc,
                        finish@,
                        j,
                        n,
                    ),
                order.no_duplicates(),
                forall|k: int| 0 <= k < order.len() ==> 0 <= #[trigger] order[k] < n,
                forall|i2: int| 0 <= i2 < n ==> (#[trigger] finish@[i2] <==> order.contains(i2)),
                forall|k: int|
                    0 <= k < order.len() ==> can_finish_after(
                        m,
                        available@,
                        alloc,
                        nd,
                        order.take(k),
                        #[trigger] order[k],
                    ),
                unfinished_count(finish@, n) + (if found {
                    1int
                } else {
                    0int
                }) <= start,
                !found ==> forall|i2: int|
                    0 <= i2 < i ==> #[trigger] finish@[i2] || blocked(nd, work@, m, i2),
        {
            if !finish[i] {
                let row = &need[i];
                assert(row@.len() >= resources_num) by {
                    assert(nd[i as int].len() == row@.len());
                }
                let mut possible = true;
                let mut j: usize = 0;
                while possible && j < resources_num
                    invariant
                        row@.len() >= resources_num,
                        j <= resources_num,
                        work.len() == resources_num,
                        possible ==> forall|j2: int|
                            0 <= j2 < j ==> row@[j2] as int <= #[trigger] work@[j2] as int,
                        !possible ==> exists|j2: int|
                            0 <= j2 < resources_num && row@[j2] as int > #[trigger] work@[j2] as int,
                    decreases resources_num - j + if possible {
                        1int
                    } else {
                        0int
                    },
                {
                    if row[j] as i128 > work[j] {
                        possible = false;
                    } else {
                        j = j + 1;
                    }
                }
                assert forall|j2: int| 0 <= j2 < m implies nd[i as int][j2] == row@[j2] by {}
                if possible {
                    let ghost old_work = work@;
                    let ghost old_finish = finish@;
                    let arow = &allocation[i];
                    assert(arow@.len() >= resources_num) by {
                        assert(alloc[i as int].len() == arow@.len());
                    }
                    assert forall|j2: int| 0 <= j2 < m implies alloc[i as int][j2]
                        == arow@[j2] by {}
                    proof {
                        assert forall|j2: int| 0 <= j2 < m implies finished_total(
                            alloc,
                            old_finish.update(i as int, true),
                            j2,
                            n,
                        ) == finished_total(alloc, old_finish, j2, n) + alloc[i as int][j2] by {
                            lemma_mark_finished(alloc, old_finish, i as int, j2, n);
                        }
                    }
                    for j in 0..resources_num
                        invariant
                            arow@.len() >= resources_num,
                            work.len() == resources_num,
                            old_work.len() == resources_num,
                            n == tasks_num,
                            m == resources_num,
                            available.len() >= resources_num,
                            forall|k: int|
                                0 <= k < j ==> #[trigger] work@[k] == old_work[k] + arow@[k],
                            forall|k: int| j <= k < resources_num ==> #[trigger] work@[k] == old_work[k],
                            forall|k: int|
                                0 <= k < m ==> old_work[k] == available@[k] + finished_total(
                                    alloc,
                                    old_finish,
                                    k,
                                    n,
                                ),
                            forall|k: int|
                                0 <= k < m ==> finished_total(
                                    alloc,
                                    old_finish.update(i as int, true),
                                    k,
                                    n,
                                ) == finished_total(alloc, old_finish, k, n) + arow@[k],
                    {
                        proof {
                            lemma_finished_total_bounds(
                                alloc,
                                old_finish.update(i as int, true),
                                j as int,
                                n,
                            );
                            lemma_within_i128(n, old_work[j as int] + arow@[j as int]);
                        }
                        let v = work[j] + arow[j] as i128;
                        work.set(j, v);
                    }
                    finish.set(i, true);
                    proof {
                        lemma_mark_finished(alloc, old_finish, i as int, 0, n);
                        let old_order = order;
                        order = order.push(i as int);
                        assert(order.drop_last() =~= old_order);
                        assert forall|k: int| 0 <= k < old_order.len() implies order.take(k)
                            =~= old_order.take(k) by {}
                        assert(order.take(old_order.len() as int) =~= old_order);
                        assert forall|i2: int| 0 <= i2 < n implies (#[trigger] finish@[i2]
                            <==> order.contains(i2)) by {
                            if i2 == i {
                                assert(order[old_order.len() as int] == i2);
                            } else if old_order.contains(i2) {
                                let k = choose|k: int| 0 <= k < old_order.len() && old_order[k] == i2;
                                assert(order[k] == i2);
                            } else if order.contains(i2) {
                                let k = choose|k: int| 0 <= k < order.len() && order[k] == i2;
                                assert(old_order[k] == i2);
                            }
                        }
                        assert(finish@ =~= old_finish.update(i as int, true));
                        assert forall|k: int|
                            0 <= k < order.len() implies can_finish_after(
                            m,
                            available@,
                            alloc,
                            nd,
                            order.take(k),
                            #[trigger] order[k],
                        ) by {
                            if k < old_order.len() {
                                assert(order[k] == old_order[k]);
                            } else {
                                assert forall|j2: int| 0 <= j2 < m implies #[trigger] nd[i as int][j2]
                                    <= available@[j2] + held_by(alloc, old_order, j2) by {
                                    assert(row@[j2] <= old_work[j2]);
                                }
                            }
                        }
                        assert forall|j2: int| 0 <= j2 < m implies #[trigger] held_by(
                            alloc,
                            order,
                            j2,
                        ) == finished_total(alloc, finish@, j2, n) by {
                            assert(held_by(alloc, old_order, j2) == finished_total(alloc, old_finish, j2, n));
                        }
                    }
                    found = true;
                } else {
                    proof {
                        if !found {
                            let j2 = choose|j2: int|
                                0 <= j2 < resources_num && row@[j2] as int > #[trigger] work@[j2]
                                    as int;
                            assert(nd[i as int][j2] > work@[j2]);
                        }
                    }
                }
            }
        }
        progress = found;
    }

    #[verifier::loop_isolation(false)]
    for i in 0..tasks_num
        invariant
            finish.len() == tasks_num,
            forall|k: int| 0 <= k < i ==> #[trigger] finish@[k],
    {
        if !finish[i] {
            proof {
                if holdings_nonnegative(alloc, tasks_num as nat, m) {
                    lemma_stuck_is_unsafe(
                        tasks_num as nat,
                        m,
                        available@,
                        alloc,
                        nd,
                        finish@,
                        work@,
                        i as int,
                    );
                }
            }
            return false;
        }
    }
    assert forall|t: int| 0 <= t < n implies #[trigger] order.contains(t) by {
        assert(finish@[t]);
    }
    assert(is_safe_sequence(tasks_num as nat, m, available@, alloc, nd, order));
    true
}

proof fn lemma_all_unfinished_total(
    allocation: Seq<Seq<isize>>,
    finish: Seq<bool>,
    j: int,
    upto: int,
)
    requires
        upto <= finish.len(),
        forall|k: int| 0 <= k < upto ==> !#[trigger] finish[k],
    ensures
        finished_total(allocation, finish, j, upto) == 0,
    decreases upto,
{
    if upto > 0 {
        lemma_all_unfinished_total(allocation, finish, j, upto - 1);
    }
}

} // verus!
