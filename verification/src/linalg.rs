//! Element-wise arithmetic on small two-dimensional arrays of fixed-point
//! values, as the split criteria and the forest averaging use it.

use vstd::prelude::*;
use crate::fixed::{fix_wf, clip, div_val, fadd, fsub, fdiv};

verus! {

/// Left fold of a fixed-point sum, clipping at every step, starting at zero:
/// the value an accumulation loop produces.
pub open spec fn fold_sum(s: Seq<i64>) -> int
    decreases s.len(),
{
    if s.len() == 0 {
        0
    } else {
        clip(fold_sum(s.drop_last()) + s.last())
    }
}

#[derive(Debug)]
pub struct Matrix {
    pub data: Vec<Vec<i64>>,
}

impl Matrix {
    pub open spec fn n_rows(self) -> int {
        self.data@.len() as int
    }

    pub open spec fn n_cols(self) -> int {
        if self.data@.len() == 0 {
            0
        } else {
            self.data@[0]@.len() as int
        }
    }

    /// Entry at row `i`, column `j`.
    pub open spec fn ent(self, i: int, j: int) -> int {
        self.data@[i]@[j] as int
    }

    /// Rectangular, with every entry a well-formed fixed-point value.
    pub open spec fn wf(self) -> bool {
        &&& forall|i: int|
            0 <= i < self.n_rows() ==> (#[trigger] self.data@[i])@.len() == self.n_cols()
        &&& forall|i: int, j: int|
            0 <= i < self.n_rows() && 0 <= j < self.n_cols() ==> fix_wf(
                (#[trigger] self.data@[i]@[j]) as int,
            )
    }

    /// Copy a rectangular array into a matrix.
    pub fn new(data: &Vec<Vec<i64>>) -> (r: Matrix)
        requires
            forall|i: int|
                0 <= i < data@.len() ==> (#[trigger] data@[i])@.len() == data@[0]@.len(),
            forall|i: int, j: int|
                0 <= i < data@.len() && 0 <= j < data@[i]@.len() ==> fix_wf(
                    #[trigger] data@[i]@[j] as int,
                ),
        ensures
            r.wf(),
            r.data@.len() == data@.len(),
            forall|i: int| 0 <= i < data@.len() ==> #[trigger] r.data@[i]@ == data@[i]@,
    {
        let mut out: Vec<Vec<i64>> = Vec::new();
        let n = data.len();
        let mut i: usize = 0;
        while i < n
            invariant
                i <= n,
                n == data@.len(),
                out@.len() == i,
                forall|k: int| 0 <= k < i ==> #[trigger] out@[k]@ == data@[k]@,
            decreases n - i,
        {
            let src = &data[i];
            let mut row: Vec<i64> = Vec::new();
            let m = src.len();
            let mut j: usize = 0;
            while j < m
                invariant
                    j <= m,
                    m == src@.len(),
                    row@.len() == j,
                    forall|k: int| 0 <= k < j ==> #[trigger] row@[k] == src@[k],
                decreases m - j,
            {
                row.push(src[j]);
                j = j + 1;
            }
            proof {
                assert(row@ =~= src@);
            }
            out.push(row);
            i = i + 1;
        }
        Matrix { data: out }
    }

    pub fn get_data(&self) -> (r: &Vec<Vec<i64>>)
        ensures
            r == &self.data,
    {
        &self.data
    }

    /// Copy of row `n`.
    pub fn get_nth_row(&self, n: usize) -> (r: Vec<i64>)
        requires
            n < self.n_rows(),
        ensures
            r@ == self.data@[n as int]@,
    {
        let src = &self.data[n];
        let mut row: Vec<i64> = Vec::new();
        let m = src.len();
        let mut j: usize = 0;
        while j < m
            invariant
                j <= m,
                m == src@.len(),
                row@.len() == j,
                forall|k: int| 0 <= k < j ==> #[trigger] row@[k] == src@[k],
            decreases m - j,
        {
            row.push(src[j]);
            j = j + 1;
        }
        proof {
            assert(row@ =~= src@);
        }
        row
    }

    /// Copy of column `n`.
    pub fn get_nth_column(&self, n: usize) -> (r: Vec<i64>)
        requires
            self.wf(),
            n < self.n_cols(),
        ensures
            r@.len() == self.n_rows(),
            forall|i: int| 0 <= i < self.n_rows() ==> #[trigger] r@[i] as int == self.ent(
                i,
                n as int,
            ),
    {
        let rows = self.data.len();
        let mut col: Vec<i64> = Vec::new();
        let mut i: usize = 0;
        while i < rows
            invariant
                self.wf(),
                n < self.n_cols(),
                rows == self.n_rows(),
                i <= rows,
                col@.len() == i,
                forall|k: int| 0 <= k < i ==> #[trigger] col@[k] as int == self.ent(k, n as int),
            decreases rows - i,
        {
            col.push(self.data[i][n]);
            i = i + 1;
        }
        col
    }

    /// `(rows, columns)`; columns are read off the first row.
    pub fn shape(&self) -> (r: (usize, usize))
        ensures
            r.0 == self.n_rows(),
            r.1 == self.n_cols(),
    {
        let n_row = self.data.len();
        if n_row == 0 {
            return (0, 0);
        }
        let n_col = self.data[0].len();
        (n_row, n_col)
    }

    /// Element-wise clipped sum.
    pub fn add(&self, m: &Matrix) -> (r: Matrix)
        requires
            self.wf(),
            m.wf(),
            m.n_rows() == self.n_rows(),
            m.n_cols() == self.n_cols(),
        ensures
            r.wf(),
            r.n_rows() == self.n_rows(),
            r.n_cols() == self.n_cols(),
            forall|i: int, j: int|
                0 <= i < r.n_rows() && 0 <= j < r.n_cols() ==> #[trigger] r.ent(i, j) == clip(
                    self.ent(i, j) + m.ent(i, j),
                ),
    {
        let rows = self.data.len();
        let mut out: Vec<Vec<i64>> = Vec::new();
        let mut i: usize = 0;
        while i < rows
            invariant
                self.wf(),
                m.wf(),
                m.n_rows() == self.n_rows(),
                m.n_cols() == self.n_cols(),
                rows == self.n_rows(),
                i <= rows,
                out@.len() == i,
                forall|k: int| 0 <= k < i ==> (#[trigger] out@[k])@.len() == self.n_cols(),
                forall|k: int, j: int|
                    0 <= k < i && 0 <= j < self.n_cols() ==> #[trigger] out@[k]@[j] as int
                        == clip(self.ent(k, j) + m.ent(k, j)),
            decreases rows - i,
        {
            let cols = self.data[i].len();
            let mut row: Vec<i64> = Vec::new();
            let mut j: usize = 0;
            while j < cols
                invariant
                    self.wf(),
                    m.wf(),
                    m.n_rows() == self.n_rows(),
                    m.n_cols() == self.n_cols(),
                    i < self.n_rows(),
                    cols == self.n_cols(),
                    j <= cols,
                    row@.len() == j,
                    forall|t: int|
                        0 <= t < j ==> #[trigger] row@[t] as int == clip(
                            self.ent(i as int, t) + m.ent(i as int, t),
                        ),
                decreases cols - j,
            {
                row.push(fadd(self.data[i][j], m.data[i][j]));
                j = j + 1;
            }
            out.push(row);
            i = i + 1;
        }
        Matrix { data: out }
    }

    /// Element-wise clipped difference.
    pub fn subtract(&self, m: &Matrix) -> (r: Matrix)
        requires
            self.wf(),
            m.wf(),
            m.n_rows() == self.n_rows(),
            m.n_cols() == self.n_cols(),
        ensures
            r.wf(),
            r.n_rows() == self.n_rows(),
            r.n_cols() == self.n_cols(),
            forall|i: int, j: int|
                0 <= i < r.n_rows() && 0 <= j < r.n_cols() ==> #[trigger] r.ent(i, j) == clip(
                    self.ent(i, j) - m.ent(i, j),
                ),
    {
        let rows = self.data.len();
        let mut out: Vec<Vec<i64>> = Vec::new();
        let mut i: usize = 0;
        while i < rows
            invariant
                self.wf(),
                m.wf(),
                m.n_rows() == self.n_rows(),
                m.n_cols() == self.n_cols(),
                rows == self.n_rows(),
                i <= rows,
                out@.len() == i,
                forall|k: int| 0 <= k < i ==> (#[trigger] out@[k])@.len() == self.n_cols(),
                forall|k: int, j: int|
                    0 <= k < i && 0 <= j < self.n_cols() ==> #[trigger] out@[k]@[j] as int
                        == clip(self.ent(k, j) - m.ent(k, j)),
            decreases rows - i,
        {
            let cols = self.data[i].len();
            let mut row: Vec<i64> = Vec::new();
            let mut j: usize = 0;
            while j < cols
                invariant
                    self.wf(),
                    m.wf(),
                    m.n_rows() == self.n_rows(),
                    m.n_cols() == self.n_cols(),
                    i < self.n_rows(),
                    cols == self.n_cols(),
                    j <= cols,
                    row@.len() == j,
                    forall|t: int|
                        0 <= t < j ==> #[trigger] row@[t] as int == clip(
                            self.ent(i as int, t) - m.ent(i as int, t),
                        ),
                decreases cols - j,
            {
                row.push(fsub(self.data[i][j], m.data[i][j]));
                j = j + 1;
            }
            out.push(row);
            i = i + 1;
        }
        Matrix { data: out }
    }

    /// Element-wise clipped quotient; a zero denominator gives zero.
    pub fn divide(&self, m: &Matrix) -> (r: Matrix)
        requires
            self.wf(),
            m.wf(),
            m.n_rows() == self.n_rows(),
            m.n_cols() == self.n_cols(),
        ensures
            r.wf(),
            r.n_rows() == self.n_rows(),
            r.n_cols() == self.n_cols(),
            forall|i: int, j: int|
                0 <= i < r.n_rows() && 0 <= j < r.n_cols() ==> #[trigger] r.ent(i, j) == clip(
                    div_val(self.ent(i, j), m.ent(i, j)),
                ),
    {
        let rows = self.data.len();
        let mut out: Vec<Vec<i64>> = Vec::new();
        let mut i: usize = 0;
        while i < rows
            invariant
                self.wf(),
                m.wf(),
                m.n_rows() == self.n_rows(),
                m.n_cols() == self.n_cols(),
                rows == self.n_rows(),
                i <= rows,
                out@.len() == i,
                forall|k: int| 0 <= k < i ==> (#[trigger] out@[k])@.len() == self.n_cols(),
                forall|k: int, j: int|
                    0 <= k < i && 0 <= j < self.n_cols() ==> #[trigger] out@[k]@[j] as int
                        == clip(div_val(self.ent(k, j), m.ent(k, j))),
            decreases rows - i,
        {
            let cols = self.data[i].len();
            let mut row: Vec<i64> = Vec::new();
            let mut j: usize = 0;
            while j < cols
                invariant
                    self.wf(),
                    m.wf(),
                    m.n_rows() == self.n_rows(),
                    m.n_cols() == self.n_cols(),
                    i < self.n_rows(),
                    cols == self.n_cols(),
                    j <= cols,
                    row@.len() == j,
                    forall|t: int|
                        0 <= t < j ==> #[trigger] row@[t] as int == clip(
                            div_val(self.ent(i as int, t), m.ent(i as int, t)),
                        ),
                decreases cols - j,
            {
                row.push(fdiv(self.data[i][j], m.data[i][j]));
                j = j + 1;
            }
            out.push(row);
            i = i + 1;
        }
        Matrix { data: out }
    }

    /// Divide every entry by one scalar; a zero scalar gives zeros.
    pub fn divide_scalar(&self, scalar: i64) -> (r: Matrix)
        requires
            self.wf(),
            fix_wf(scalar as int),
        ensures
            r.wf(),
            r.n_rows() == self.n_rows(),
            r.n_cols() == self.n_cols(),
            forall|i: int, j: int|
                0 <= i < r.n_rows() && 0 <= j < r.n_cols() ==> #[trigger] r.ent(i, j) == clip(
                    div_val(self.ent(i, j), scalar as int),
                ),
    {
        let rows = self.data.len();
        let mut out: Vec<Vec<i64>> = Vec::new();
        let mut i: usize = 0;
        while i < rows
            invariant
                self.wf(),
                fix_wf(scalar as int),
                rows == self.n_rows(),
                i <= rows,
                out@.len() == i,
                forall|k: int| 0 <= k < i ==> (#[trigger] out@[k])@.len() == self.n_cols(),
                forall|k: int, j: int|
                    0 <= k < i && 0 <= j < self.n_cols() ==> #[trigger] out@[k]@[j] as int
                        == clip(div_val(self.ent(k, j), scalar as int)),
            decreases rows - i,
        {
            let cols = self.data[i].len();
            let mut row: Vec<i64> = Vec::new();
            let mut j: usize = 0;
            while j < cols
                invariant
                    self.wf(),
                    fix_wf(scalar as int),
                    i < self.n_rows(),
                    cols == self.n_cols(),
                    j <= cols,
                    row@.len() == j,
                    forall|t: int|
                        0 <= t < j ==> #[trigger] row@[t] as int == clip(
                            div_val(self.ent(i as int, t), scalar as int),
                        ),
                decreases cols - j,
            {
                row.push(fdiv(self.data[i][j], scalar));
                j = j + 1;
            }
            out.push(row);
            i = i + 1;
        }
        Matrix { data: out }
    }

    /// Sums along an axis: `0` folds the rows together column by column,
    /// anything else gives one sum per row.
    pub fn sum(&self, axis: usize) -> (r: Vec<i64>)
        requires
            self.wf(),
        ensures
            axis == 0 && self.n_rows() > 0 ==> r@.len() == self.n_cols() && forall|j: int|
                0 <= j < self.n_cols() ==> #[trigger] r@[j] as int == fold_sum(
                    Seq::new(self.n_rows() as nat, |i: int| self.data@[i]@[j]),
                ),
            axis == 0 && self.n_rows() == 0 ==> r@.len() == 0,
            axis != 0 ==> r@.len() == self.n_rows() && forall|i: int|
                0 <= i < self.n_rows() ==> #[trigger] r@[i] as int == fold_sum(self.data@[i]@),
    {
        let rows = self.data.len();
        let mut r: Vec<i64> = Vec::new();
        if axis == 0 {
            if rows == 0 {
                return r;
            }
            let cols = self.data[0].len();
            let mut j: usize = 0;
            while j < cols
                invariant
                    self.wf(),
                    rows == self.n_rows(),
                    rows > 0,
                    cols == self.n_cols(),
                    j <= cols,
                    r@.len() == j,
                    forall|t: int|
                        0 <= t < j ==> #[trigger] r@[t] as int == fold_sum(
                            Seq::new(rows as nat, |i: int| self.data@[i]@[t]),
                        ),
                decreases cols - j,
            {
                let ghost colseq: Seq<i64> = Seq::new(rows as nat, |i: int| self.data@[i]@[j as int]);
                let mut acc: i64 = 0;
                let mut i: usize = 0;
                while i < rows
                    invariant
                        self.wf(),
                        rows == self.n_rows(),
                        j < self.n_cols(),
                        i <= rows,
                        colseq == Seq::new(rows as nat, |t: int| self.data@[t]@[j as int]),
                        acc as int == fold_sum(colseq.subrange(0, i as int)),
                        fix_wf(acc as int),
                    decreases rows - i,
                {
                    proof {
                        assert(colseq.subrange(0, i + 1).drop_last() =~= colseq.subrange(
                            0,
                            i as int,
                        ));
                    }
                    acc = fadd(acc, self.data[i][j]);
                    i = i + 1;
                }
                proof {
                    assert(colseq.subrange(0, rows as int) =~= colseq);
                }
                r.push(acc);
                j = j + 1;
            }
            r
        } else {
            let mut i: usize = 0;
            while i < rows
                invariant
                    self.wf(),
                    rows == self.n_rows(),
                    i <= rows,
                    r@.len() == i,
                    forall|t: int|
                        0 <= t < i ==> #[trigger] r@[t] as int == fold_sum(self.data@[t]@),
                decreases rows - i,
            {
                let row = &self.data[i];
                let cols = row.len();
                let mut acc: i64 = 0;
                let mut j: usize = 0;
                while j < cols
                    invariant
                        self.wf(),
                        i < self.n_rows(),
                        row == &self.data@[i as int],
                        cols == row@.len(),
                        j <= cols,
                        acc as int == fold_sum(row@.subrange(0, j as int)),
                        fix_wf(acc as int),
                    decreases cols - j,
                {
                    proof {
                        assert(row@.subrange(0, j + 1).drop_last() =~= row@.subrange(
                            0,
                            j as int,
                        ));
                    }
                    acc = fadd(acc, row[j]);
                    j = j + 1;
                }
                proof {
                    assert(row@.subrange(0, cols as int) =~= row@);
                }
                r.push(acc);
                i = i + 1;
            }
            r
        }
    }
}


/// A fold of nonnegative in-range values is itself in range and dominates
/// each one of them.
pub proof fn lemma_fold_sum_ge_cell(s: Seq<i64>, i: int)
    requires
        forall|j: int|
            0 <= j < s.len() ==> 0 <= (#[trigger] s[j]) as int <= crate::fixed::CLIP as int,
        0 <= i < s.len(),
    ensures
        s[i] as int <= fold_sum(s),
        0 <= fold_sum(s) <= crate::fixed::CLIP as int,
    decreases s.len(),
{
    if s.len() > 0 {
        if i < s.len() - 1 {
            lemma_fold_sum_ge_cell(s.drop_last(), i);
        } else if s.len() >= 2 {
            lemma_fold_sum_ge_cell(s.drop_last(), 0);
        } else {
            lemma_fold_sum_nonneg(s.drop_last());
        }
    }
}

pub proof fn lemma_fold_sum_nonneg(s: Seq<i64>)
    requires
        forall|j: int|
            0 <= j < s.len() ==> 0 <= (#[trigger] s[j]) as int <= crate::fixed::CLIP as int,
    ensures
        0 <= fold_sum(s) <= crate::fixed::CLIP as int,
    decreases s.len(),
{
    if s.len() > 0 {
        lemma_fold_sum_nonneg(s.drop_last());
    }
}

} // verus!

