//! A dense row-major matrix over any copyable entry type, with the index
//! operations that the solvers need: entry access, the minor that leaves out
//! one row and one column, and the overwrite of one row and column around the
//! diagonal.

use vstd::prelude::*;

verus! {

/// The index in a sequence of what stands at `k` once the entry at `gap` is taken out.
pub open spec fn skip(gap: int, k: int) -> int {
    if k < gap {
        k
    } else {
        k + 1
    }
}

/// The index, once the entry at `gap` is taken out, of what stood at `k`; `k` is not `gap`.
pub open spec fn unskip(gap: int, k: int) -> int {
    if k < gap {
        k
    } else {
        k - 1
    }
}

/// Row-major positions are in range and differ for different entries.
pub proof fn lemma_row_major(rows: int, cols: int, i: int, j: int, a: int, b: int)
    requires
        0 <= i < rows,
        0 <= j < cols,
        0 <= a < rows,
        0 <= b < cols,
    ensures
        0 <= i * cols <= i * cols + j < rows * cols,
        (i != a || j != b) ==> i * cols + j != a * cols + b,
{
    assert(0 <= i * cols <= i * cols + j < rows * cols) by (nonlinear_arith)
        requires
            0 <= i < rows,
            0 <= j < cols,
    ;
    if i < a {
        assert(i * cols + j < a * cols + b) by (nonlinear_arith)
            requires
                0 <= i < a,
                0 <= j < cols,
                0 <= b,
        ;
    } else if a < i {
        assert(a * cols + b < i * cols + j) by (nonlinear_arith)
            requires
                0 <= a < i,
                0 <= b < cols,
                0 <= j,
        ;
    }
}

/// A matrix of `rows` by `cols` entries, stored row after row.
pub struct Matrix<T> {
    rows: usize,
    cols: usize,
    data: Vec<T>,
}

impl<T> Matrix<T> {
    #[verifier::type_invariant]
    spec fn well_formed(&self) -> bool {
        self.data@.len() == self.rows * self.cols
    }
}

impl<T: Copy> Matrix<T> {
    /// The number of rows.
    pub closed spec fn nrows(&self) -> nat {
        self.rows as nat
    }

    /// The number of columns.
    pub closed spec fn ncols(&self) -> nat {
        self.cols as nat
    }

    /// The entries, row after row.
    pub closed spec fn entries(&self) -> Seq<T> {
        self.data@
    }

    /// The entry in row `i` and column `j`.
    pub open spec fn at(&self, i: int, j: int) -> T {
        self.entries()[i * self.ncols() + j]
    }

    /// The matrix has these dimensions and holds `value` everywhere.
    pub open spec fn is_filled(&self, rows: nat, cols: nat, value: T) -> bool {
        &&& self.nrows() == rows
        &&& self.ncols() == cols
        &&& self.entries().len() == rows * cols
        &&& forall|k: int| 0 <= k < rows * cols ==> self.entries()[k] == value
    }

    /// A matrix that holds `value` everywhere, or `None` where the number of
    /// entries does not fit the machine word.
    pub fn filled(rows: usize, cols: usize, value: T) -> (m: Option<Self>)
        ensures
            m.is_some() <==> rows * cols <= usize::MAX,
            m.is_some() ==> m.unwrap().is_filled(rows as nat, cols as nat, value),
    {
        match rows.checked_mul(cols) {
            None => None,
            Some(total) => {
                let mut data: Vec<T> = Vec::new();
                let mut k: usize = 0;
                while k < total
                    invariant
                        k <= total,
                        data@.len() == k,
                        forall|p: int| 0 <= p < k ==> data@[p] == value,
                    decreases total - k,
                {
                    data.push(value);
                    k = k + 1;
                }
                Some(Self { rows, cols, data })
            },
        }
    }

    /// The square matrix with `diagonal` on the diagonal and `off` elsewhere,
    /// or `None` where the number of entries does not fit the machine word.
    pub fn scalar(n: usize, diagonal: T, off: T) -> (m: Option<Self>)
        ensures
            m.is_some() <==> n * n <= usize::MAX,
            m.is_some() ==> {
                &&& m.unwrap().nrows() == n
                &&& m.unwrap().ncols() == n
                &&& forall|i: int, j: int|
                    0 <= i < n && 0 <= j < n ==> #[trigger] m.unwrap().at(i, j) == if i == j {
                        diagonal
                    } else {
                        off
                    }
            },
    {
        match Self::filled(n, n, off) {
            None => None,
            Some(mut m) => {
                proof {
                    assert forall|a: int, b: int| 0 <= a < n && 0 <= b < n implies #[trigger] m.at(
                        a,
                        b,
                    ) == off by {
                        lemma_row_major(n as int, n as int, a, b, 0, 0);
                    }
                }
                let mut i: usize = 0;
                while i < n
                    invariant
                        i <= n,
                        m.nrows() == n,
                        m.ncols() == n,
                        forall|a: int, b: int|
                            0 <= a < n && 0 <= b < n ==> #[trigger] m.at(a, b) == if a == b && a
                                < i {
                                diagonal
                            } else {
                                off
                            },
                    decreases n - i,
                {
                    m.set(i, i, diagonal);
                    i = i + 1;
                }
                Some(m)
            },
        }
    }

    /// The matrix whose entries are `data`, row after row, or `None` where
    /// `data` does not hold `rows * cols` entries.
    pub fn from_vec(rows: usize, cols: usize, data: Vec<T>) -> (m: Option<Self>)
        ensures
            m.is_some() <==> data@.len() == rows * cols,
            m.is_some() ==> {
                &&& m.unwrap().nrows() == rows
                &&& m.unwrap().ncols() == cols
                &&& m.unwrap().entries() == data@
            },
    {
        match rows.checked_mul(cols) {
            None => {
                proof {
                    vstd::std_specs::vec::axiom_spec_len(&data);
                }
                None
            },
            Some(total) => {
                if data.len() == total {
                    Some(Self { rows, cols, data })
                } else {
                    None
                }
            },
        }
    }

    /// The number of entries.
    pub fn size(&self) -> (n: usize)
        ensures
            n == self.nrows() * self.ncols(),
            n == self.entries().len(),
    {
        proof {
            use_type_invariant(self);
        }
        self.data.len()
    }

    /// The entries, row after row.
    pub fn into_vec(self) -> (data: Vec<T>)
        ensures
            data@ == self.entries(),
            data@.len() == self.nrows() * self.ncols(),
    {
        proof {
            use_type_invariant(&self);
        }
        self.data
    }

    /// The entries, row after row.
    pub fn as_slice(&self) -> (data: &[T])
        ensures
            data@ == self.entries(),
            data@.len() == self.nrows() * self.ncols(),
    {
        proof {
            use_type_invariant(self);
        }
        self.data.as_slice()
    }

    /// The number of rows.
    pub fn rows(&self) -> (r: usize)
        ensures
            r == self.nrows(),
    {
        self.rows
    }

    /// The number of columns.
    pub fn cols(&self) -> (c: usize)
        ensures
            c == self.ncols(),
    {
        self.cols
    }

    /// The entry in row `i` and column `j`.
    pub fn get(&self, i: usize, j: usize) -> (v: T)
        requires
            i < self.nrows(),
            j < self.ncols(),
        ensures
            v == self.at(i as int, j as int),
    {
        proof {
            use_type_invariant(self);
            vstd::std_specs::vec::axiom_spec_len(&self.data);
            lemma_row_major(self.rows as int, self.cols as int, i as int, j as int, 0, 0);
        }
        self.data[i * self.cols + j]
    }

    /// Column `j`, top entry first.
    pub fn column(&self, j: usize) -> (col: Vec<T>)
        requires
            j < self.ncols(),
        ensures
            col@.len() == self.nrows(),
            forall|i: int| 0 <= i < self.nrows() ==> col@[i] == self.at(i, j as int),
    {
        let rows: usize = self.rows;
        let mut col: Vec<T> = Vec::new();
        let mut i: usize = 0;
        while i < rows
            invariant
                i <= rows,
                rows == self.nrows(),
                j < self.ncols(),
                col@.len() == i,
                forall|k: int| 0 <= k < i ==> col@[k] == self.at(k, j as int),
            decreases rows - i,
        {
            col.push(self.get(i, j));
            i = i + 1;
        }
        col
    }

    /// Writes one entry and leaves the others as they are.
    pub fn set(&mut self, i: usize, j: usize, value: T)
        requires
            i < old(self).nrows(),
            j < old(self).ncols(),
        ensures
            final(self).nrows() == old(self).nrows(),
            final(self).ncols() == old(self).ncols(),
            final(self).at(i as int, j as int) == value,
            forall|a: int, b: int|
                0 <= a < old(self).nrows() && 0 <= b < old(self).ncols() && (a != i || b != j)
                    ==> #[trigger] final(self).at(a, b) == old(self).at(a, b),
    {
        proof {
            use_type_invariant(&*self);
            vstd::std_specs::vec::axiom_spec_len(&self.data);
            lemma_row_major(self.rows as int, self.cols as int, i as int, j as int, 0, 0);
        }
        let cols = self.cols;
        self.data[i * cols + j] = value;
        proof {
            assert forall|a: int, b: int|
                0 <= a < old(self).nrows() && 0 <= b < old(self).ncols() && (a != i || b
                    != j) implies #[trigger] self.at(a, b) == old(self).at(a, b) by {
                lemma_row_major(self.rows as int, self.cols as int, a, b, i as int, j as int);
            }
        }
    }
}

} // verus!
