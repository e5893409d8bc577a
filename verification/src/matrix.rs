//! `TernaryMatrix`: a row-major matrix of trits.
use vstd::prelude::*;
use crate::trit::Trit;

verus! {

/// A ternary matrix stored as a flat vector with row-major layout: the
/// element of row `r` and column `c` is `data[r * cols + c]`.
#[derive(Debug, Clone, PartialEq, Eq)]
pub struct TernaryMatrix {
    pub rows: usize,
    pub cols: usize,
    pub data: Vec<Trit>,
}

/// The flat index of row `r`, column `c` in a matrix with `cols` columns.
pub open spec fn flat_index(r: int, c: int, cols: int) -> int {
    r * cols + c
}

/// In a matrix with `cols > 0` columns, flat index `i` is that of row `r`,
/// column `c` (with `c < cols`) exactly when `i / cols == r` and
/// `i % cols == c`.
pub proof fn lemma_flat_index_decompose(i: int, r: int, c: int, cols: int)
    requires
        cols > 0,
        0 <= c < cols,
        0 <= i,
    ensures
        (i == flat_index(r, c, cols)) <==> (i / cols == r && i % cols == c),
{
    if i == flat_index(r, c, cols) {
        vstd::arithmetic::div_mod::lemma_fundamental_div_mod_converse(i, cols, r, c);
    }
    if i / cols == r && i % cols == c {
        vstd::arithmetic::div_mod::lemma_fundamental_div_mod(i, cols);
        vstd::arithmetic::mul::lemma_mul_is_commutative(cols, r);
    }
}

/// The cell at row `r < rows`, column `c < cols` lies inside a
/// `rows * cols` matrix.
pub proof fn lemma_flat_index_in_bounds(r: int, c: int, rows: int, cols: int)
    requires
        0 <= r < rows,
        0 <= c < cols,
    ensures
        0 <= flat_index(r, c, cols) < rows * cols,
{
    assert(0 <= r * cols + c < rows * cols) by (nonlinear_arith)
        requires
            0 <= r < rows,
            0 <= c < cols,
    ;
}

/// Every flat index `i < rows * cols` has a row below `rows` and a column
/// below `cols` (so the matrix has columns).
pub proof fn lemma_flat_index_row_col_bounds(i: int, rows: int, cols: int)
    requires
        0 <= i < rows * cols,
        0 <= rows,
        0 <= cols,
    ensures
        cols > 0,
        0 <= i / cols < rows,
        0 <= i % cols < cols,
{
    assert(cols > 0) by (nonlinear_arith)
        requires
            0 <= i < rows * cols,
            0 <= rows,
            0 <= cols,
    ;
    vstd::arithmetic::div_mod::lemma_fundamental_div_mod(i, cols);
    vstd::arithmetic::div_mod::lemma_mod_bound(i, cols);
    let q = i / cols;
    assert(0 <= q < rows) by (nonlinear_arith)
        requires
            i == cols * q + i % cols,
            0 <= i % cols < cols,
            0 <= i < rows * cols,
            cols > 0,
    ;
}

impl TernaryMatrix {
    /// The matrix holds exactly `rows * cols` trits.
    pub open spec fn wf(&self) -> bool {
        self.data.len() == self.rows * self.cols
    }

    /// A `rows` by `cols` matrix of zeros.
    pub fn zeros(rows: usize, cols: usize) -> (m: Self)
        requires
            rows * cols <= usize::MAX,
        ensures
            m.rows == rows,
            m.cols == cols,
            m.wf(),
            forall|i: int| 0 <= i < m.data.len() ==> m.data@[i] == Trit::Zero,
    {
        let n: usize = rows * cols;
        TernaryMatrix { rows, cols, data: vec![Trit::Zero; n] }
    }

    /// A matrix over the given row-major data, which must hold exactly
    /// `rows * cols` trits.
    pub fn from_flat(rows: usize, cols: usize, data: Vec<Trit>) -> (m: Self)
        requires
            data.len() == rows * cols,
        ensures
            m.rows == rows,
            m.cols == cols,
            m.data@ == data@,
            m.wf(),
    {
        TernaryMatrix { rows, cols, data }
    }

    /// The trit at row `r`, column `c`, read at flat index `r * cols + c`.
    pub fn get(&self, r: usize, c: usize) -> (t: Trit)
        requires
            flat_index(r as int, c as int, self.cols as int) < self.data.len(),
        ensures
            t == self.data@[flat_index(r as int, c as int, self.cols as int)],
    {
        proof {
            assert(0 <= r * self.cols) by (nonlinear_arith);
        }
        self.data[r * self.cols + c]
    }

    /// Write `v` at row `r`, column `c` (flat index `r * cols + c`).
    pub fn set(&mut self, r: usize, c: usize, v: Trit)
        requires
            flat_index(r as int, c as int, old(self).cols as int) < old(self).data.len(),
        ensures
            final(self).rows == old(self).rows,
            final(self).cols == old(self).cols,
            final(self).data@ == old(self).data@.update(
                flat_index(r as int, c as int, old(self).cols as int),
                v,
            ),
    {
        proof {
            assert(0 <= r * self.cols) by (nonlinear_arith);
        }
        let i: usize = r * self.cols + c;
        self.data[i] = v;
    }

    /// A matrix with the same shape and the same trits.
    pub(crate) fn duplicate(&self) -> (m: Self)
        ensures
            m.rows == self.rows,
            m.cols == self.cols,
            m.data@ == self.data@,
    {
        TernaryMatrix { rows: self.rows, cols: self.cols, data: self.data.clone() }
    }
}

/// Reading a cell after writing it gives back the written trit, and the
/// write leaves every cell at another flat index as it was.
pub proof fn lemma_get_after_set(data: Seq<Trit>, cols: int, r: int, c: int, r2: int, c2: int, v: Trit)
    requires
        0 <= flat_index(r, c, cols) < data.len(),
        0 <= flat_index(r2, c2, cols) < data.len(),
    ensures
        data.update(flat_index(r, c, cols), v)[flat_index(r2, c2, cols)] == if flat_index(r, c, cols)
            == flat_index(r2, c2, cols) {
            v
        } else {
            data[flat_index(r2, c2, cols)]
        },
{
}

} // verus!
