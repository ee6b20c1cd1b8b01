//! Small helpers that build the tables of the banker's algorithm.
use vstd::prelude::*;

verus! {

/// Value that the last pair naming `t` carries, or `default` when no pair names it.
pub open spec fn last_value_for(pairs: Seq<(usize, isize)>, t: int, default: isize) -> isize
    decreases pairs.len(),
{
    if pairs.len() == 0 {
        default
    } else if pairs.last().0 as int == t {
        pairs.last().1
    } else {
        last_value_for(pairs.drop_last(), t, default)
    }
}

/// Every row of `m` has `cols` entries.
pub open spec fn rows_have_len(m: Seq<Vec<isize>>, cols: nat) -> bool {
    forall|t: int| 0 <= t < m.len() ==> #[trigger] m[t]@.len() == cols
}

/// A vector of `n` copies of `value`.
pub fn filled(n: usize, value: isize) -> (v: Vec<isize>)
    ensures
        v@ == Seq::new(n as nat, |i: int| value),
{
    let mut v: Vec<isize> = Vec::new();
    for i in 0..n
        invariant
            v@ == Seq::new(i as nat, |k: int| value),
    {
        v.push(value);
        assert(v@ =~= Seq::new((i + 1) as nat, |k: int| value));
    }
    v
}

/// A `rows` by `cols` matrix of zeros.
pub fn zero_matrix(rows: usize, cols: usize) -> (m: Vec<Vec<isize>>)
    ensures
        m@.len() == rows,
        forall|t: int| 0 <= t < rows ==> #[trigger] m@[t]@ == Seq::new(cols as nat, |c: int| 0isize),
{
    let mut m: Vec<Vec<isize>> = Vec::new();
    for t in 0..rows
        invariant
            m@.len() == t,
            forall|k: int| 0 <= k < t ==> #[trigger] m@[k]@ == Seq::new(cols as nat, |c: int| 0isize),
    {
        m.push(filled(cols, 0));
    }
    m
}

/// Writes `value` of each pair `(row, value)` into column `col` at that row,
/// in order, skipping rows outside the matrix.
pub fn write_pairs_in_column(m: &mut Vec<Vec<isize>>, col: usize, pairs: &Vec<(usize, isize)>)
    requires
        forall|t: int| 0 <= t < old(m)@.len() ==> col < #[trigger] old(m)@[t]@.len(),
    ensures
        final(m)@.len() == old(m)@.len(),
        forall|t: int|
            0 <= t < final(m)@.len() ==> #[trigger] final(m)@[t]@.len() == old(m)@[t]@.len(),
        forall|t: int, c: int|
            0 <= t < final(m)@.len() && 0 <= c < final(m)@[t]@.len() && c != col ==> #[trigger] final(m)@[t]@[c]
                == old(m)@[t]@[c],
        forall|t: int|
            0 <= t < final(m)@.len() ==> #[trigger] final(m)@[t]@[col as int] == last_value_for(
                pairs@,
                t,
                old(m)@[t]@[col as int],
            ),
{
    let ghost m0 = m@;
    let rows = m.len();
    let n = pairs.len();
    for k in 0..n
        invariant
            rows == m0.len(),
            n == pairs@.len(),
            m@.len() == rows,
            forall|t: int| 0 <= t < rows ==> col < #[trigger] m0[t]@.len(),
            forall|t: int| 0 <= t < rows ==> #[trigger] m@[t]@.len() == m0[t]@.len(),
            forall|t: int, c: int|
                0 <= t < rows && 0 <= c < m@[t]@.len() && c != col ==> #[trigger] m@[t]@[c]
                    == m0[t]@[c],
            forall|t: int|
                0 <= t < rows ==> #[trigger] m@[t]@[col as int] == last_value_for(
                    pairs@.take(k as int),
                    t,
                    m0[t]@[col as int],
                ),
    {
        let (row, value) = pairs[k];
        let ghost before = m@;
        if row < rows {
            m[row].set(col, value);
        }
        proof {
            assert(pairs@.take(k + 1).drop_last() =~= pairs@.take(k as int));
            assert forall|t: int| 0 <= t < rows implies #[trigger] m@[t]@[col as int]
                == last_value_for(pairs@.take(k + 1), t, m0[t]@[col as int]) by {
                if t != row {
                    assert(m@[t] == before[t]);
                }
            }
            assert forall|t: int, c: int|
                0 <= t < rows && 0 <= c < m@[t]@.len() && c != col implies #[trigger] m@[t]@[c]
                == m0[t]@[c] by {
                assert(before[t]@[c] == m0[t]@[c]);
            }
        }
    }
    assert(pairs@.take(n as int) =~= pairs@);
}

/// Sets column `col` to one at every row named in `rows_to_mark`, skipping
/// rows outside the matrix.
pub fn mark_rows_in_column(m: &mut Vec<Vec<isize>>, col: usize, rows_to_mark: &Vec<usize>)
    requires
        forall|t: int| 0 <= t < old(m)@.len() ==> col < #[trigger] old(m)@[t]@.len(),
    ensures
        final(m)@.len() == old(m)@.len(),
        forall|t: int|
            0 <= t < final(m)@.len() ==> #[trigger] final(m)@[t]@.len() == old(m)@[t]@.len(),
        forall|t: int, c: int|
            0 <= t < final(m)@.len() && 0 <= c < final(m)@[t]@.len() && c != col ==> #[trigger] final(m)@[t]@[c]
                == old(m)@[t]@[c],
        forall|t: int|
            0 <= t < final(m)@.len() ==> #[trigger] final(m)@[t]@[col as int] == if rows_to_mark@.contains(
                t as usize,
            ) {
                1
            } else {
                old(m)@[t]@[col as int]
            },
{
    let ghost m0 = m@;
    let rows = m.len();
    let n = rows_to_mark.len();
    for k in 0..n
        invariant
            rows == m0.len(),
            n == rows_to_mark@.len(),
            m@.len() == rows,
            forall|t: int| 0 <= t < rows ==> col < #[trigger] m0[t]@.len(),
            forall|t: int| 0 <= t < rows ==> #[trigger] m@[t]@.len() == m0[t]@.len(),
            forall|t: int, c: int|
                0 <= t < rows && 0 <= c < m@[t]@.len() && c != col ==> #[trigger] m@[t]@[c]
                    == m0[t]@[c],
            forall|t: int|
                0 <= t < rows ==> #[trigger] m@[t]@[col as int] == if rows_to_mark@.take(
                    k as int,
                ).contains(t as usize) {
                    1
                } else {
                    m0[t]@[col as int]
                },
    {
        let row = rows_to_mark[k];
        let ghost before = m@;
        if row < rows {
            m[row].set(col, 1);
        }
        proof {
            let s0 = rows_to_mark@.take(k as int);
            let s1 = rows_to_mark@.take(k + 1);
            assert(s1 =~= s0.push(row));
            assert forall|t: int| 0 <= t < rows implies #[trigger] m@[t]@[col as int] == if s1.contains(
                t as usize,
            ) {
                1
            } else {
                m0[t]@[col as int]
            } by {
                if s0.contains(t as usize) {
                    let x = choose|x: int| 0 <= x < s0.len() && s0[x] == t as usize;
                    assert(s1[x] == t as usize);
                }
                if t as usize == row {
                    assert(s1[k as int] == row);
                } else {
                    assert(m@[t] == before[t]);
                    if s1.contains(t as usize) {
                        let x = choose|x: int| 0 <= x < s1.len() && s1[x] == t as usize;
                        assert(s0[x] == t as usize);
                    }
                }
            }
            assert forall|t: int, c: int|
                0 <= t < rows && 0 <= c < m@[t]@.len() && c != col implies #[trigger] m@[t]@[c]
                == m0[t]@[c] by {
                assert(before[t]@[c] == m0[t]@[c]);
            }
        }
    }
    assert(rows_to_mark@.take(n as int) =~= rows_to_mark@);
}

} // verus!
