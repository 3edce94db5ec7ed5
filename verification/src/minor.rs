//! Taking one coordinate out of a vector or a matrix, and writing a vector
//! back around it: the index work of one coordinate step of the
//! semidefinite relaxation.

use vstd::prelude::*;
use crate::matrix::{skip, unskip, Matrix};

verus! {

/// What stands in row `r`, column `c` once row `i` has been overwritten with
/// `row` and column `i` with `col`, both around the diagonal entry, which stays.
pub open spec fn cross_entry<T>(before: T, i: int, r: int, c: int, row: Seq<T>, col: Seq<T>) -> T {
    if r == i && c != i {
        row[unskip(i, c)]
    } else if c == i && r != i {
        col[unskip(i, r)]
    } else {
        before
    }
}

/// Copies `m` without its entry `i` into `dst`, which is one entry shorter.
pub fn remove_row_1d<T: Copy>(dst: &mut Vec<T>, m: &Vec<T>, i: usize)
    requires
        i < m@.len(),
        old(dst)@.len() == m@.len() - 1,
    ensures
        final(dst)@ == m@.remove(i as int),
{
    let n: usize = dst.len();
    let mut k: usize = 0;
    while k < n
        invariant
            k <= n,
            n == m@.len() - 1,
            i < m@.len(),
            dst@.len() == n,
            forall|p: int| 0 <= p < k ==> dst@[p] == m@[skip(i as int, p)],
        decreases n - k,
    {
        let source: usize = if k < i {
            k
        } else {
            k + 1
        };
        dst[k] = m[source];
        k = k + 1;
    }
    assert(dst@ =~= m@.remove(i as int));
}

/// Copies `m` without its row `i` and its column `i` into `dst`, which has one
/// row and one column less.
pub fn remove_row_col<T: Copy>(dst: &mut Matrix<T>, m: &Matrix<T>, i: usize)
    requires
        i < m.nrows(),
        i < m.ncols(),
        old(dst).nrows() == m.nrows() - 1,
        old(dst).ncols() == m.ncols() - 1,
    ensures
        final(dst).nrows() == m.nrows() - 1,
        final(dst).ncols() == m.ncols() - 1,
        forall|a: int, b: int|
            0 <= a < m.nrows() - 1 && 0 <= b < m.ncols() - 1 ==> #[trigger] final(dst).at(a, b)
                == m.at(skip(i as int, a), skip(i as int, b)),
{
    let rows: usize = dst.rows();
    let cols: usize = dst.cols();
    let mut a: usize = 0;
    while a < rows
        invariant
            a <= rows,
            i < m.nrows(),
            i < m.ncols(),
            rows == m.nrows() - 1,
            cols == m.ncols() - 1,
            dst.nrows() == rows,
            dst.ncols() == cols,
            forall|p: int, q: int|
                0 <= p < a && 0 <= q < cols ==> #[trigger] dst.at(p, q) == m.at(
                    skip(i as int, p),
                    skip(i as int, q),
                ),
        decreases rows - a,
    {
        let source_row: usize = if a < i {
            a
        } else {
            a + 1
        };
        let mut b: usize = 0;
        while b < cols
            invariant
                b <= cols,
                a < rows,
                i < m.nrows(),
                i < m.ncols(),
                rows == m.nrows() - 1,
                cols == m.ncols() - 1,
                dst.nrows() == rows,
                dst.ncols() == cols,
                source_row == skip(i as int, a as int),
                forall|p: int, q: int|
                    0 <= p < a && 0 <= q < cols ==> #[trigger] dst.at(p, q) == m.at(
                        skip(i as int, p),
                        skip(i as int, q),
                    ),
                forall|q: int|
                    0 <= q < b ==> #[trigger] dst.at(a as int, q) == m.at(
                        skip(i as int, a as int),
                        skip(i as int, q),
                    ),
            decreases cols - b,
        {
            let source_col: usize = if b < i {
                b
            } else {
                b + 1
            };
            let value: T = m.get(source_row, source_col);
            dst.set(a, b, value);
            b = b + 1;
        }
        a = a + 1;
    }
}

/// Overwrites row `i` of the square matrix `x` with `row` and column `i` with
/// `col`, both around the diagonal entry, which stays, as do all other entries.
pub fn assign_cross<T: Copy>(x: &mut Matrix<T>, i: usize, row: &Vec<T>, col: &Vec<T>)
    requires
        old(x).nrows() == old(x).ncols(),
        i < old(x).nrows(),
        row@.len() == old(x).nrows() - 1,
        col@.len() == old(x).nrows() - 1,
    ensures
        final(x).nrows() == old(x).nrows(),
        final(x).ncols() == old(x).ncols(),
        forall|r: int, c: int|
            0 <= r < old(x).nrows() && 0 <= c < old(x).ncols() ==> #[trigger] final(x).at(r, c)
                == cross_entry(old(x).at(r, c), i as int, r, c, row@, col@),
{
    let n: usize = x.rows();
    let mut k: usize = 0;
    while k + 1 < n
        invariant
            k + 1 <= n,
            i < n,
            x.nrows() == n,
            x.ncols() == n,
            old(x).nrows() == n,
            old(x).ncols() == n,
            row@.len() == n - 1,
            col@.len() == n - 1,
            forall|r: int, c: int|
                0 <= r < n && 0 <= c < n ==> #[trigger] x.at(r, c) == if r == i && c != i && unskip(
                    i as int,
                    c,
                ) < k {
                    row@[unskip(i as int, c)]
                } else if c == i && r != i && unskip(i as int, r) < k {
                    col@[unskip(i as int, r)]
                } else {
                    old(x).at(r, c)
                },
        decreases n - k,
    {
        let target: usize = if k < i {
            k
        } else {
            k + 1
        };
        x.set(i, target, row[k]);
        x.set(target, i, col[k]);
        k = k + 1;
    }
}

} // verus!
