//! The dense matrix of an exact-cover problem: bits in row-major order with
//! a label per row and per column, and the views of it that a solver needs.

use crate::text::Shown;
use vstd::prelude::*;
use vstd::string::StringExecFns;

verus! {

/// A matrix of bits, addressed by column and row.
pub trait BitMatrix: Sized {
    /// The dimensions and the stored cells go together.
    spec fn ok(&self) -> bool;

    /// The number of columns.
    spec fn spec_cols(&self) -> nat;

    /// The number of rows.
    spec fn spec_rows(&self) -> nat;

    /// The bit at column `col` of row `row`.
    spec fn bit(&self, col: int, row: int) -> bool;

    fn num_cols(&self) -> (n: usize)
        requires
            self.ok(),
        ensures
            n == self.spec_cols(),
    ;

    /// The number of rows; it is counted from the cells, so the matrix
    /// must have a column.
    fn num_rows(&self) -> (n: usize)
        requires
            self.ok(),
            self.spec_cols() > 0,
        ensures
            n == self.spec_rows(),
    ;

    fn at(&self, col: usize, row: usize) -> (b: bool)
        requires
            self.ok(),
            col < self.spec_cols(),
            row < self.spec_rows(),
        ensures
            b == self.bit(col as int, row as int),
    ;

    /// The matrix without row `row`: the rows below it move up by one.
    fn without_row(&self, row: usize) -> (m: Self)
        requires
            self.ok(),
            self.spec_cols() > 0,
            row < self.spec_rows(),
        ensures
            m.ok(),
            m.spec_cols() == self.spec_cols(),
            m.spec_rows() == self.spec_rows() - 1,
            forall|c: int, r: int|
                0 <= c < m.spec_cols() && 0 <= r < m.spec_rows() ==> #[trigger] m.bit(c, r)
                    == self.bit(
                    c,
                    if r < row {
                        r
                    } else {
                        r + 1
                    },
                ),
    ;

    /// The matrix without column `col`: the columns right of it move left
    /// by one.
    fn without_col(&self, col: usize) -> (m: Self)
        requires
            self.ok(),
            col < self.spec_cols(),
        ensures
            m.ok(),
            m.spec_cols() == self.spec_cols() - 1,
            m.spec_rows() == self.spec_rows(),
            forall|c: int, r: int|
                0 <= c < m.spec_cols() && 0 <= r < m.spec_rows() ==> #[trigger] m.bit(c, r)
                    == self.bit(
                    if c < col {
                        c
                    } else {
                        c + 1
                    },
                    r,
                ),
    ;

    /// Every column is covered: the matrix has no column left.
    fn is_covered(&self) -> (b: bool)
        requires
            self.ok(),
        ensures
            b == (self.spec_cols() == 0),
    {
        self.num_cols() == 0
    }

    /// The bits of column `col`, from the top down.
    fn col(&self, col: usize) -> (bits: Vec<bool>)
        requires
            self.ok(),
            col < self.spec_cols(),
        ensures
            bits@ == Seq::new(self.spec_rows(), |r: int| self.bit(col as int, r)),
    {
        let mut accum: Vec<bool> = Vec::new();
        let r = self.num_rows();
        let mut row: usize = 0;
        while row < r
            invariant
                self.ok(),
                col < self.spec_cols(),
                r == self.spec_rows(),
                0 <= row <= r,
                accum@ == Seq::new(row as nat, |k: int| self.bit(col as int, k)),
            decreases r - row,
        {
            accum.push(self.at(col, row));
            row = row + 1;
            assert(accum@ =~= Seq::new(row as nat, |k: int| self.bit(col as int, k)));
        }
        accum
    }

    /// The bits of row `row`, from left to right.
    fn row(&self, row: usize) -> (bits: Vec<bool>)
        requires
            self.ok(),
            self.spec_cols() > 0 ==> row < self.spec_rows(),
        ensures
            bits@ == Seq::new(self.spec_cols(), |c: int| self.bit(c, row as int)),
    {
        let mut accum: Vec<bool> = Vec::new();
        let c = self.num_cols();
        let mut col: usize = 0;
        while col < c
            invariant
                self.ok(),
                self.spec_cols() > 0 ==> row < self.spec_rows(),
                c == self.spec_cols(),
                0 <= col <= c,
                accum@ == Seq::new(col as nat, |k: int| self.bit(k, row as int)),
            decreases c - col,
        {
            accum.push(self.at(col, row));
            col = col + 1;
            assert(accum@ =~= Seq::new(col as nat, |k: int| self.bit(k, row as int)));
        }
        accum
    }
}

/// A walk along row `row` of the matrix `mat`, from column `cursor` on, over
/// the columns that have a bit set.
pub struct GenericColIter<'a, M> {
    pub mat: &'a M,
    pub row: usize,
    pub cursor: usize,
}

/// A walk down column `col` of the matrix `mat`, from row `cursor` on, over
/// the rows that have a bit set.
pub struct GenericRowIter<'a, M> {
    pub mat: &'a M,
    pub col: usize,
    pub cursor: usize,
}

impl<'a, M: BitMatrix> GenericColIter<'a, M> {
    /// The next column with a bit set, if there is one; the walk goes on
    /// behind it.
    pub fn next(&mut self) -> (c: Option<usize>)
        requires
            old(self).mat.ok(),
            old(self).mat.spec_cols() > 0,
            old(self).row < old(self).mat.spec_rows(),
        ensures
            final(self).mat == old(self).mat,
            final(self).row == old(self).row,
            match c {
                Some(x) => {
                    &&& old(self).cursor <= x < old(self).mat.spec_cols()
                    &&& old(self).mat.bit(x as int, old(self).row as int)
                    &&& final(self).cursor == x + 1
                    &&& forall|y: int|
                        old(self).cursor <= y < x ==> !old(self).mat.bit(y, old(self).row as int)
                },
                None => {
                    &&& final(self).cursor == if old(self).cursor >= old(self).mat.spec_cols() {
                        old(self).cursor as int
                    } else {
                        old(self).mat.spec_cols() as int
                    }
                    &&& forall|y: int|
                        old(self).cursor <= y < old(self).mat.spec_cols() ==> !old(self).mat.bit(
                            y,
                            old(self).row as int,
                        )
                },
            },
    {
        let num_cols = self.mat.num_cols();
        loop
            invariant
                self.mat == old(self).mat,
                self.row == old(self).row,
                self.mat.ok(),
                num_cols == self.mat.spec_cols(),
                self.row < self.mat.spec_rows(),
                old(self).cursor <= self.cursor,
                old(self).cursor < num_cols ==> self.cursor <= num_cols,
                old(self).cursor >= num_cols ==> self.cursor == old(self).cursor,
                forall|y: int| old(self).cursor <= y < self.cursor ==> !self.mat.bit(y, self.row as int),
            decreases num_cols - self.cursor,
        {
            if self.cursor >= num_cols {
                return None;
            }
            if self.mat.at(self.cursor, self.row) {
                let col = self.cursor;
                self.cursor = self.cursor + 1;
                return Some(col);
            } else {
                self.cursor = self.cursor + 1;
            }
        }
    }
}

impl<'a, M: BitMatrix> GenericRowIter<'a, M> {
    /// The next row with a bit set, if there is one; the walk goes on
    /// behind it.
    pub fn next(&mut self) -> (r: Option<usize>)
        requires
            old(self).mat.ok(),
            old(self).col < old(self).mat.spec_cols(),
        ensures
            final(self).mat == old(self).mat,
            final(self).col == old(self).col,
            match r {
                Some(x) => {
                    &&& old(self).cursor <= x < old(self).mat.spec_rows()
                    &&& old(self).mat.bit(old(self).col as int, x as int)
                    &&& final(self).cursor == x + 1
                    &&& forall|y: int|
                        old(self).cursor <= y < x ==> !old(self).mat.bit(old(self).col as int, y)
                },
                None => {
                    &&& final(self).cursor == if old(self).cursor >= old(self).mat.spec_rows() {
                        old(self).cursor as int
                    } else {
                        old(self).mat.spec_rows() as int
                    }
                    &&& forall|y: int|
                        old(self).cursor <= y < old(self).mat.spec_rows() ==> !old(self).mat.bit(
                            old(self).col as int,
                            y,
                        )
                },
            },
    {
        let num_rows = self.mat.num_rows();
        loop
            invariant
                self.mat == old(self).mat,
                self.col == old(self).col,
                self.mat.ok(),
                num_rows == self.mat.spec_rows(),
                self.col < self.mat.spec_cols(),
                old(self).cursor <= self.cursor,
                old(self).cursor < num_rows ==> self.cursor <= num_rows,
                old(self).cursor >= num_rows ==> self.cursor == old(self).cursor,
                forall|y: int| old(self).cursor <= y < self.cursor ==> !self.mat.bit(self.col as int, y),
            decreases num_rows - self.cursor,
        {
            if self.cursor >= num_rows {
                return None;
            }
            if self.mat.at(self.col, self.cursor) {
                let row = self.cursor;
                self.cursor = self.cursor + 1;
                return Some(row);
            } else {
                self.cursor = self.cursor + 1;
            }
        }
    }
}

/// The rows that have a bit set in column `col`, from the top down.
pub fn rows_on<M: BitMatrix>(mat: &M, col: usize) -> (rows: Vec<usize>)
    requires
        mat.ok(),
        col < mat.spec_cols(),
    ensures
        rows@.map_values(|r: usize| r as int) == set_rows(
            mat,
            col as int,
            mat.spec_rows() as int,
        ),
{
    let mut i = GenericRowIter { mat: mat, col: col, cursor: 0 };
    let mut rows: Vec<usize> = Vec::new();
    let n = mat.num_rows();
    loop
        invariant
            mat.ok(),
            col < mat.spec_cols(),
            n == mat.spec_rows(),
            i.mat == mat,
            i.col == col,
            0 <= i.cursor <= n,
            rows@.map_values(|r: usize| r as int) == set_rows(
                mat,
                col as int,
                i.cursor as int,
            ),
        ensures
            rows@.map_values(|r: usize| r as int) == set_rows(mat, col as int, n as int),
        decreases n - i.cursor,
    {
        let ghost before = i.cursor as int;
        let ghost got = rows@.map_values(|r: usize| r as int);
        match i.next() {
            Some(r) => {
                rows.push(r);
                proof {
                    lemma_set_rows_skip(mat, col as int, before, r as int);
                    assert(rows@.map_values(|r: usize| r as int) =~= got.push(r as int));
                }
            },
            None => {
                proof {
                    lemma_set_rows_skip(mat, col as int, before, n as int);
                }
                break ;
            },
        }
    }
    rows
}

/// The columns that have a bit set in row `row`, from left to right.
pub fn cols_on<M: BitMatrix>(mat: &M, row: usize) -> (cols: Vec<usize>)
    requires
        mat.ok(),
        mat.spec_cols() > 0,
        row < mat.spec_rows(),
    ensures
        cols@.map_values(|c: usize| c as int) == set_cols(
            mat,
            row as int,
            mat.spec_cols() as int,
        ),
{
    let mut i = GenericColIter { mat: mat, row: row, cursor: 0 };
    let mut cols: Vec<usize> = Vec::new();
    let n = mat.num_cols();
    loop
        invariant
            mat.ok(),
            mat.spec_cols() > 0,
            row < mat.spec_rows(),
            n == mat.spec_cols(),
            i.mat == mat,
            i.row == row,
            0 <= i.cursor <= n,
            cols@.map_values(|c: usize| c as int) == set_cols(
                mat,
                row as int,
                i.cursor as int,
            ),
        ensures
            cols@.map_values(|c: usize| c as int) == set_cols(mat, row as int, n as int),
        decreases n - i.cursor,
    {
        let ghost before = i.cursor as int;
        let ghost got = cols@.map_values(|c: usize| c as int);
        match i.next() {
            Some(c) => {
                cols.push(c);
                proof {
                    lemma_set_cols_skip(mat, row as int, before, c as int);
                    assert(cols@.map_values(|c: usize| c as int) =~= got.push(c as int));
                }
            },
            None => {
                proof {
                    lemma_set_cols_skip(mat, row as int, before, n as int);
                }
                break ;
            },
        }
    }
    cols
}

/// Rows without the bit add nothing to the set rows of a column.
pub proof fn lemma_set_rows_skip<M: BitMatrix>(m: &M, c: int, from: int, to: int)
    requires
        0 <= from <= to,
        forall|y: int| from <= y < to ==> !m.bit(c, y),
    ensures
        set_rows(m, c, to) == set_rows(m, c, from),
        m.bit(c, to) ==> set_rows(m, c, to + 1) == set_rows(m, c, from).push(to),
    decreases to - from,
{
    if from < to {
        lemma_set_rows_skip(m, c, from, to - 1);
    }
    if m.bit(c, to) {
        assert(set_rows(m, c, to + 1) == set_rows(m, c, to).push(to));
    }
}

/// Columns without the bit add nothing to the set columns of a row.
pub proof fn lemma_set_cols_skip<M: BitMatrix>(m: &M, r: int, from: int, to: int)
    requires
        0 <= from <= to,
        forall|y: int| from <= y < to ==> !m.bit(y, r),
    ensures
        set_cols(m, r, to) == set_cols(m, r, from),
        m.bit(to, r) ==> set_cols(m, r, to + 1) == set_cols(m, r, from).push(to),
    decreases to - from,
{
    if from < to {
        lemma_set_cols_skip(m, r, from, to - 1);
    }
    if m.bit(to, r) {
        assert(set_cols(m, r, to + 1) == set_cols(m, r, to).push(to));
    }
}

/// The rows among the first `n` that have a bit set in column `c`, from the
/// top down.
pub open spec fn set_rows<M: BitMatrix>(m: &M, c: int, n: int) -> Seq<int>
    decreases n,
{
    if n <= 0 {
        Seq::empty()
    } else if m.bit(c, n - 1) {
        set_rows(m, c, n - 1).push(n - 1)
    } else {
        set_rows(m, c, n - 1)
    }
}

/// The columns among the first `n` that have a bit set in row `r`, from
/// left to right.
pub open spec fn set_cols<M: BitMatrix>(m: &M, r: int, n: int) -> Seq<int>
    decreases n,
{
    if n <= 0 {
        Seq::empty()
    } else if m.bit(n - 1, r) {
        set_cols(m, r, n - 1).push(n - 1)
    } else {
        set_cols(m, r, n - 1)
    }
}

/// The set rows of a column are rows below the bound, each with its bit
/// set, in rising order.
pub proof fn lemma_set_rows<M: BitMatrix>(m: &M, c: int, n: int)
    ensures
        set_rows(m, c, n).len() <= if n < 0 {
            0
        } else {
            n
        },
        forall|k: int|
            0 <= k < set_rows(m, c, n).len() ==> 0 <= #[trigger] set_rows(m, c, n)[k] < n && m.bit(
                c,
                set_rows(m, c, n)[k],
            ),
        forall|k1: int, k2: int|
            0 <= k1 < k2 < set_rows(m, c, n).len() ==> #[trigger] set_rows(m, c, n)[k1]
                < #[trigger] set_rows(m, c, n)[k2],
    decreases n,
{
    if n > 0 {
        lemma_set_rows(m, c, n - 1);
    }
}

/// The set columns of a row are columns below the bound, each with its bit
/// set, in rising order.
pub proof fn lemma_set_cols<M: BitMatrix>(m: &M, r: int, n: int)
    ensures
        set_cols(m, r, n).len() <= if n < 0 {
            0
        } else {
            n
        },
        forall|k: int|
            0 <= k < set_cols(m, r, n).len() ==> 0 <= #[trigger] set_cols(m, r, n)[k] < n && m.bit(
                set_cols(m, r, n)[k],
                r,
            ),
        forall|k1: int, k2: int|
            0 <= k1 < k2 < set_cols(m, r, n).len() ==> #[trigger] set_cols(m, r, n)[k1]
                < #[trigger] set_cols(m, r, n)[k2],
    decreases n,
{
    if n > 0 {
        lemma_set_cols(m, r, n - 1);
    }
}

/// Every column among the first `n` that has its bit set in row `r` is among
/// the set columns of the row.
pub proof fn lemma_set_cols_has<M: BitMatrix>(m: &M, r: int, n: int, c: int)
    requires
        0 <= c < n,
        m.bit(c, r),
    ensures
        set_cols(m, r, n).contains(c),
    decreases n,
{
    if c == n - 1 {
        let s = set_cols(m, r, n);
        assert(s[s.len() - 1] == c);
    } else {
        lemma_set_cols_has(m, r, n - 1, c);
        let before = set_cols(m, r, n - 1);
        let k = choose|k: int| 0 <= k < before.len() && before[k] == c;
        assert(set_cols(m, r, n)[k] == c);
    }
}

/// Every row among the first `n` that has its bit set in column `c` is among
/// the set rows of the column.
pub proof fn lemma_set_rows_has<M: BitMatrix>(m: &M, c: int, n: int, r: int)
    requires
        0 <= r < n,
        m.bit(c, r),
    ensures
        set_rows(m, c, n).contains(r),
    decreases n,
{
    if r == n - 1 {
        let s = set_rows(m, c, n);
        assert(s[s.len() - 1] == r);
    } else {
        lemma_set_rows_has(m, c, n - 1, r);
        let before = set_rows(m, c, n - 1);
        let k = choose|k: int| 0 <= k < before.len() && before[k] == r;
        assert(set_rows(m, c, n)[k] == r);
    }
}

/// A matrix whose columns have labels.
pub trait ColLabelled<L> {
    /// The labels of the columns, from left to right.
    spec fn col_labels(&self) -> Seq<L>;

    fn col_label(&self, col: usize) -> (l: &L)
        requires
            col < self.col_labels().len(),
        ensures
            *l == self.col_labels()[col as int],
    ;
}

/// A matrix whose rows have labels.
pub trait RowLabelled<L> {
    /// The labels of the rows, from the top down.
    spec fn row_labels(&self) -> Seq<L>;

    fn row_label(&self, row: usize) -> (l: &L)
        requires
            row < self.row_labels().len(),
        ensures
            *l == self.row_labels()[row as int],
    ;
}

/// A dense matrix: `elems` holds the cells row after row, each row as long
/// as `cols`.
pub struct Matrix<L, T> {
    pub col_indent: String,
    pub cols: Vec<L>,
    pub rows: Vec<L>,
    pub elems: Vec<T>,
}

impl<L, T> RowLabelled<L> for Matrix<L, T> {
    open spec fn row_labels(&self) -> Seq<L> {
        self.rows@
    }

    fn row_label(&self, row: usize) -> (l: &L) {
        &self.rows[row]
    }
}

impl<L, T> ColLabelled<L> for Matrix<L, T> {
    open spec fn col_labels(&self) -> Seq<L> {
        self.cols@
    }

    fn col_label(&self, col: usize) -> (l: &L) {
        &self.cols[col]
    }
}

impl<L, T> Matrix<L, T> {
    /// The cell at column `col` of row `row`.
    pub fn at(&self, col: usize, row: usize) -> (t: &T)
        requires
            row * self.cols.len() + col < self.elems.len(),
        ensures
            *t == self.elems@[row * self.cols.len() + col],
    {
        let width = self.cols.len();
        assert(row * width <= row * width + col);
        let rw = row * width;
        &self.elems[rw + col]
    }

    /// Writes `t` into the cell at column `col` of row `row`.
    pub fn put(&mut self, col: usize, row: usize, t: T)
        requires
            row * old(self).cols.len() + col < old(self).elems.len(),
        ensures
            final(self).elems@ == old(self).elems@.update(row * old(self).cols.len() + col, t),
            final(self).cols == old(self).cols,
            final(self).rows == old(self).rows,
            final(self).col_indent == old(self).col_indent,
    {
        let width = self.cols.len();
        assert(row * width <= row * width + col);
        self.elems[row * width + col] = t;
    }

    /// There is one cell for each row and column.
    pub open spec fn dims_ok(&self) -> bool {
        self.elems.len() == self.rows.len() * self.cols.len()
    }
}

/// A cell that stands for a bit.
pub trait ToBool {
    /// The bit that the cell stands for.
    spec fn truth(&self) -> bool;

    fn to_bool(&self) -> (b: bool)
        ensures
            b == self.truth(),
    ;
}

impl ToBool for bool {
    open spec fn truth(&self) -> bool {
        *self
    }

    fn to_bool(&self) -> (b: bool) {
        *self
    }
}

impl ToBool for usize {
    open spec fn truth(&self) -> bool {
        *self != 0
    }

    fn to_bool(&self) -> (b: bool) {
        *self != 0
    }
}

impl ToBool for isize {
    open spec fn truth(&self) -> bool {
        *self != 0
    }

    fn to_bool(&self) -> (b: bool) {
        *self != 0
    }
}

/// The cell of column `col` and row `row` stands at `row * width + col`,
/// inside the cells of `rows` rows.
pub proof fn lemma_cell_index(col: int, row: int, width: int, rows: int)
    requires
        0 <= col < width,
        0 <= row < rows,
    ensures
        0 <= row * width + col < rows * width,
        row * width + col < (row + 1) * width,
        (row + 1) * width <= rows * width,
        (row * width + col) / width == row,
        (row * width + col) % width == col,
{
    assert(row * width + width == (row + 1) * width) by (nonlinear_arith);
    assert((row + 1) * width <= rows * width) by (nonlinear_arith)
        requires
            row + 1 <= rows,
            width > 0,
    ;
    assert(0 <= row * width) by (nonlinear_arith)
        requires
            0 <= row,
            0 < width,
    ;
    vstd::arithmetic::div_mod::lemma_fundamental_div_mod_converse(
        row * width + col,
        width,
        row,
        col,
    );
}

impl<L: Copy, B: ToBool + Copy> BitMatrix for Matrix<L, B> {
    open spec fn ok(&self) -> bool {
        self.dims_ok()
    }

    open spec fn spec_cols(&self) -> nat {
        self.cols@.len()
    }

    open spec fn spec_rows(&self) -> nat {
        self.rows@.len()
    }

    open spec fn bit(&self, col: int, row: int) -> bool {
        self.elems@[row * self.cols@.len() + col].truth()
    }

    fn num_cols(&self) -> (n: usize) {
        self.cols.len()
    }

    fn num_rows(&self) -> (n: usize) {
        proof {
            vstd::arithmetic::div_mod::lemma_div_by_multiple(
                self.rows.len() as int,
                self.cols.len() as int,
            );
        }
        self.elems.len() / self.num_cols()
    }

    fn at(&self, col: usize, row: usize) -> (b: bool) {
        proof {
            lemma_cell_index(
                col as int,
                row as int,
                self.cols.len() as int,
                self.rows.len() as int,
            );
        }
        Matrix::at(self, col, row).to_bool()
    }

    fn without_row(&self, row: usize) -> (m: Self)
        ensures
            m.rows@ == self.rows@.remove(row as int),
            m.cols@ == self.cols@,
            m.col_indent == self.col_indent,
    {
        let w = self.num_cols();
        let n = self.num_rows();
        proof {
            lemma_cell_index(0, row as int, w as int, n as int);
        }
        let mut elems: Vec<B> = Vec::new();
        let mut k: usize = 0;
        while k < row * w
            invariant
                self.dims_ok(),
                w == self.cols.len(),
                n == self.rows.len(),
                row < n,
                (row + 1) * w <= n * w,
                row * w <= (row + 1) * w,
                0 <= k <= row * w,
                elems@ == self.elems@.take(k as int),
            decreases row * w - k,
        {
            elems.push(self.elems[k]);
            k = k + 1;
            assert(elems@ =~= self.elems@.take(k as int));
        }
        assert(row * w + w == (row + 1) * w) by (nonlinear_arith);
        let mut k: usize = (row + 1) * w;
        while k < self.elems.len()
            invariant
                self.dims_ok(),
                w == self.cols.len(),
                n == self.rows.len(),
                row < n,
                (row + 1) * w <= n * w,
                row * w + w == (row + 1) * w,
                (row + 1) * w <= k <= self.elems.len(),
                elems@ == self.elems@.take(row * w) + self.elems@.subrange((row + 1) * w, k as int),
            decreases self.elems.len() - k,
        {
            elems.push(self.elems[k]);
            k = k + 1;
            assert(elems@ =~= self.elems@.take(row * w) + self.elems@.subrange(
                (row + 1) * w,
                k as int,
            ));
        }
        let mut rows: Vec<L> = Vec::new();
        let mut r: usize = 0;
        while r < n
            invariant
                n == self.rows.len(),
                row < n,
                0 <= r <= n,
                rows@ == if r <= row {
                    self.rows@.take(r as int)
                } else {
                    self.rows@.remove(row as int).take(r - 1)
                },
            decreases n - r,
        {
            if r != row {
                rows.push(self.rows[r]);
            }
            r = r + 1;
            proof {
                if r <= row {
                    assert(rows@ =~= self.rows@.take(r as int));
                } else {
                    assert(rows@ =~= self.rows@.remove(row as int).take(r - 1));
                }
            }
        }
        let cols = copy_labels(&self.cols);
        let m = Matrix { rows: rows, col_indent: self.col_indent.clone(), cols: cols, elems: elems };
        proof {
            assert(m.rows@ =~= self.rows@.remove(row as int));
            assert((n - 1) * w == n * w - w) by (nonlinear_arith);
            assert forall|c: int, r: int|
                0 <= c < m.spec_cols() && 0 <= r < m.spec_rows() implies #[trigger] m.bit(c, r)
                == self.bit(
                c,
                if r < row {
                    r
                } else {
                    r + 1
                },
            ) by {
                lemma_cell_index(c, r, w as int, n - 1);
                if r < row {
                    lemma_cell_index(c, r, w as int, row as int);
                } else {
                    lemma_cell_index(c, r + 1, w as int, n as int);
                    assert((r + 1) * w == r * w + w) by (nonlinear_arith);
                    assert(row * w <= r * w) by (nonlinear_arith)
                        requires
                            row <= r,
                            w >= 0,
                    ;
                }
            }
        }
        m
    }

    fn without_col(&self, col: usize) -> (m: Self)
        ensures
            m.rows@ == self.rows@,
            m.cols@ == self.cols@.remove(col as int),
            m.col_indent == self.col_indent,
    {
        let w = self.num_cols();
        let n = self.rows.len();
        let mut accum: Vec<B> = Vec::new();
        let mut r: usize = 0;
        while r < n
            invariant
                self.dims_ok(),
                w == self.cols.len(),
                n == self.rows.len(),
                col < w,
                0 <= r <= n,
                accum@.len() == r * (w - 1),
                forall|r2: int, c2: int|
                    0 <= r2 < r && 0 <= c2 < w - 1 ==> accum@[#[trigger] cell(w - 1, c2, r2)]
                        == self.elems@[cell(w as int, skip_one(c2, col as int), r2)],
            decreases n - r,
        {
            let mut c: usize = 0;
            while c < w
                invariant
                    self.dims_ok(),
                    w == self.cols.len(),
                    n == self.rows.len(),
                    col < w,
                    0 <= r < n,
                    0 <= c <= w,
                    accum@.len() == r * (w - 1) + (if c <= col {
                        c as int
                    } else {
                        c - 1
                    }),
                    forall|r2: int, c2: int|
                        0 <= r2 < r && 0 <= c2 < w - 1 ==> accum@[#[trigger] cell(w - 1, c2, r2)]
                            == self.elems@[cell(w as int, skip_one(c2, col as int), r2)],
                    forall|c2: int|
                        0 <= c2 < (if c <= col {
                            c as int
                        } else {
                            c - 1
                        }) ==> accum@[#[trigger] cell(w - 1, c2, r as int)] == self.elems@[cell(
                            w as int,
                            skip_one(c2, col as int),
                            r as int,
                        )],
                decreases w - c,
            {
                proof {
                    lemma_cell_index(c as int, r as int, w as int, n as int);
                }
                if c != col {
                    let ghost before = accum@;
                    accum.push(self.elems[r * w + c]);
                    proof {
                        assert forall|r2: int, c2: int| 0 <= r2 < r && 0 <= c2 < w - 1 implies accum@[
                        #[trigger] cell(w - 1, c2, r2)] == self.elems@[cell(
                            w as int,
                            skip_one(c2, col as int),
                            r2,
                        )] by {
                            lemma_cell_index(c2, r2, w - 1, r as int);
                            assert(accum@[cell(w - 1, c2, r2)] == before[cell(w - 1, c2, r2)]);
                        }
                    }
                }
                c = c + 1;
            }
            r = r + 1;
            proof {
                assert(r * (w - 1) == (r - 1) * (w - 1) + (w - 1)) by (nonlinear_arith);
            }
        }
        let mut cols: Vec<L> = Vec::new();
        let mut k: usize = 0;
        while k < w
            invariant
                w == self.cols.len(),
                col < w,
                0 <= k <= w,
                cols@ == if k <= col {
                    self.cols@.take(k as int)
                } else {
                    self.cols@.remove(col as int).take(k - 1)
                },
            decreases w - k,
        {
            if k != col {
                cols.push(self.cols[k]);
            }
            k = k + 1;
            proof {
                if k <= col {
                    assert(cols@ =~= self.cols@.take(k as int));
                } else {
                    assert(cols@ =~= self.cols@.remove(col as int).take(k - 1));
                }
            }
        }
        let rows = copy_labels(&self.rows);
        let m = Matrix { rows: rows, col_indent: self.col_indent.clone(), cols: cols, elems: accum };
        proof {
            assert(m.cols@ =~= self.cols@.remove(col as int));
            assert forall|c: int, r: int|
                0 <= c < m.spec_cols() && 0 <= r < m.spec_rows() implies #[trigger] m.bit(c, r)
                == self.bit(
                if c < col {
                    c
                } else {
                    c + 1
                },
                r,
            ) by {
                assert(m.elems@[cell(w - 1, c, r)] == self.elems@[cell(
                    w as int,
                    skip_one(c, col as int),
                    r,
                )]);
            }
        }
        m
    }
}

/// The place of the cell of column `c` and row `r` in rows of `w` cells.
pub open spec fn cell(w: int, c: int, r: int) -> int {
    r * w + c
}

/// The column that column `c` was before column `col` was taken out.
pub open spec fn skip_one(c: int, col: int) -> int {
    if c < col {
        c
    } else {
        c + 1
    }
}

/// A copy of the labels `v`.
pub fn copy_labels<L: Copy>(v: &Vec<L>) -> (r: Vec<L>)
    ensures
        r@ == v@,
{
    let mut r: Vec<L> = Vec::new();
    let mut k: usize = 0;
    while k < v.len()
        invariant
            0 <= k <= v.len(),
            r@ == v@.take(k as int),
        decreases v.len() - k,
    {
        r.push(v[k]);
        k = k + 1;
        assert(r@ =~= v@.take(k as int));
    }
    assert(v@.take(v.len() as int) =~= v@);
    r
}

impl<L: Shown, T: Shown> Matrix<L, T> {
    /// The first `k` column labels, each with a blank behind it.
    pub open spec fn head_text(&self, k: int) -> Seq<char>
        decreases k,
    {
        if k <= 0 {
            Seq::empty()
        } else {
            self.head_text(k - 1) + self.cols@[k - 1].text() + " "@
        }
    }

    /// The first `k` cells from the cell `from` on, each with a blank
    /// behind it.
    pub open spec fn cells_text(&self, from: int, k: int) -> Seq<char>
        decreases k,
    {
        if k <= 0 {
            Seq::empty()
        } else {
            self.cells_text(from, k - 1) + self.elems@[from + k - 1].text() + " "@
        }
    }

    /// The first `k` rows: each begins with a bar and a new line, then
    /// comes the label of the row with a bar and a blank, then its cells.
    pub open spec fn rows_text(&self, k: int) -> Seq<char>
        decreases k,
    {
        if k <= 0 {
            Seq::empty()
        } else {
            self.rows_text(k - 1) + "|\n"@ + self.rows@[k - 1].text() + "| "@ + self.cells_text(
                (k - 1) * self.cols@.len(),
                self.cols@.len() as int,
            )
        }
    }

    /// The number of rows that are written: those that have cells.
    pub open spec fn shown_rows(&self) -> int {
        if self.cols@.len() == 0 {
            0
        } else {
            self.rows@.len() as int
        }
    }

    /// The matrix as text: a new line and the indent, the column labels in
    /// round brackets, and in them the rows that have cells, each on a line
    /// of its own.
    pub open spec fn rendered(&self) -> Seq<char> {
        "\n"@ + self.col_indent@ + "( "@ + self.head_text(self.cols@.len() as int)
            + self.rows_text(self.shown_rows()) + ")"@
    }

    /// Writes the matrix as text.
    pub fn render(&self) -> (out: String)
        requires
            self.dims_ok(),
        ensures
            out@ == self.rendered(),
    {
        let mut out = String::from_str("\n");
        out.append(self.col_indent.as_str());
        out.append("( ");
        let ghost start = out@;
        let mut k: usize = 0;
        assert(out@ =~= start + self.head_text(0));
        while k < self.cols.len()
            invariant
                0 <= k <= self.cols.len(),
                out@ == start + self.head_text(k as int),
            decreases self.cols.len() - k,
        {
            out.append(self.cols[k].show().as_str());
            out.append(" ");
            k = k + 1;
            assert(out@ =~= start + self.head_text(k as int));
        }
        let ghost start = out@;
        let width = self.cols.len();
        let mut line: usize = 0;
        let mut cursor: usize = 0;
        assert(out@ =~= start + self.rows_text(0));
        assert(0 * width == 0) by (nonlinear_arith);
        while cursor < self.elems.len()
            invariant
                self.dims_ok(),
                width == self.cols@.len(),
                0 <= line <= self.shown_rows(),
                cursor == line * width,
                out@ == start + self.rows_text(line as int),
            decreases self.elems.len() - cursor,
        {
            proof {
                if width == 0 {
                    assert(line * width == 0) by (nonlinear_arith)
                        requires
                            width == 0,
                    ;
                    assert(self.rows@.len() * width == 0) by (nonlinear_arith)
                        requires
                            width == 0,
                    ;
                }
                if line >= self.rows@.len() {
                    assert(line * width >= self.rows@.len() * width) by (nonlinear_arith)
                        requires
                            line >= self.rows@.len(),
                            width >= 0,
                    ;
                }
                lemma_cell_index(0, line as int, width as int, self.rows@.len() as int);
                assert(line * width + width == (line + 1) * width) by (nonlinear_arith);
            }
            out.append("|\n");
            out.append(self.rows[line].show().as_str());
            out.append("| ");
            let ghost row_start = out@;
            let mut k: usize = 0;
            assert(out@ =~= row_start + self.cells_text(cursor as int, 0));
            while k < width
                invariant
                    self.dims_ok(),
                    width == self.cols@.len(),
                    line < self.rows@.len(),
                    cursor == line * width,
                    cursor + width <= self.elems.len(),
                    0 <= k <= width,
                    out@ == row_start + self.cells_text(cursor as int, k as int),
                decreases width - k,
            {
                out.append(self.elems[cursor + k].show().as_str());
                out.append(" ");
                k = k + 1;
                assert(out@ =~= row_start + self.cells_text(cursor as int, k as int));
            }
            cursor = cursor + width;
            line = line + 1;
            proof {
                assert(line * width == (line - 1) * width + width) by (nonlinear_arith);
                assert(out@ =~= start + self.rows_text(line as int));
            }
        }
        proof {
            if line < self.shown_rows() {
                assert(line * width < self.rows@.len() * width) by (nonlinear_arith)
                    requires
                        line < self.rows@.len(),
                        width > 0,
                ;
            }
        }
        out.append(")");
        assert(out@ =~= self.rendered());
        out
    }
}

} // verus!
