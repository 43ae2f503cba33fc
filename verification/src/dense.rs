//! The plain solver of the exact-cover problem on the dense matrix: choose
//! a column, try each row that has a bit in it, cut the matrix down by the
//! columns of that row and the rows that share one, and solve what is left.

use crate::exact_cover::{
    cols_on, lemma_set_cols, lemma_set_rows, rows_on, set_cols, set_rows, BitMatrix, Matrix,
    RowLabelled, ToBool,
};
use vstd::prelude::*;
use vstd::string::StringExecFns;

verus! {

/// The mathematical model of a dense matrix: its labels, and its bits row
/// by row.
#[verifier::ext_equal]
pub struct Grid<L> {
    pub cols: Seq<L>,
    pub rows: Seq<L>,
    pub bits: Seq<Seq<bool>>,
}

impl<L> Grid<L> {
    /// The grid without row `r`.
    pub open spec fn without_row(self, r: int) -> Grid<L> {
        Grid { rows: self.rows.remove(r), bits: self.bits.remove(r), ..self }
    }

    /// The grid without column `c`.
    pub open spec fn without_col(self, c: int) -> Grid<L> {
        Grid {
            cols: self.cols.remove(c),
            bits: Seq::new(self.bits.len(), |r: int| self.bits[r].remove(c)),
            ..self
        }
    }

    /// The rows among the first `n` that have a bit set in column `c`.
    pub open spec fn rows_on(self, c: int, n: int) -> Seq<int>
        decreases n,
    {
        if n <= 0 {
            Seq::empty()
        } else if self.bits[n - 1][c] {
            self.rows_on(c, n - 1).push(n - 1)
        } else {
            self.rows_on(c, n - 1)
        }
    }

    /// The columns among the first `n` that have a bit set in row `r`.
    pub open spec fn cols_on(self, r: int, n: int) -> Seq<int>
        decreases n,
    {
        if n <= 0 {
            Seq::empty()
        } else if self.bits[r][n - 1] {
            self.cols_on(r, n - 1).push(n - 1)
        } else {
            self.cols_on(r, n - 1)
        }
    }

    /// The grid without the rows `rows[t..]`, the last taken out first.
    pub open spec fn drop_rows(self, rows: Seq<int>, t: int) -> Grid<L>
        decreases rows.len() - t,
    {
        if t >= rows.len() || t < 0 {
            self
        } else {
            self.drop_rows(rows, t + 1).without_row(rows[t])
        }
    }

    /// The grid without column `j` and without the rows that have a bit in
    /// it.
    pub open spec fn reduce_col(self, j: int) -> Grid<L> {
        self.drop_rows(self.rows_on(j, self.rows.len() as int), 0).without_col(j)
    }

    /// The grid cut down by the columns `cols[t..]`, the last first.
    pub open spec fn reduce(self, cols: Seq<int>, t: int) -> Grid<L>
        decreases cols.len() - t,
    {
        if t >= cols.len() || t < 0 {
            self
        } else {
            self.reduce(cols, t + 1).reduce_col(cols[t])
        }
    }

    /// What is left of the grid when row `r` is chosen: the columns of `r`
    /// are gone, and with each the rows that have a bit in it.
    pub open spec fn choose_row(self, r: int) -> Grid<L> {
        self.reduce(self.cols_on(r, self.cols.len() as int), 0)
    }

    /// Column `c` has a bit set.
    pub open spec fn col_has_bit(self, c: int) -> bool {
        exists|r: int| 0 <= r < self.rows.len() && #[trigger] self.bits[r][c]
    }

    /// The first column from `c` on that has a bit set, and 0 where none
    /// has.
    pub open spec fn first_nonzero(self, c: int) -> int
        decreases self.cols.len() - c,
    {
        if c >= self.cols.len() || c < 0 {
            0
        } else if self.col_has_bit(c) {
            c
        } else {
            self.first_nonzero(c + 1)
        }
    }
}

impl<L, B: ToBool> Matrix<L, B> {
    /// The model of the matrix.
    pub open spec fn grid(&self) -> Grid<L> {
        Grid {
            cols: self.cols@,
            rows: self.rows@,
            bits: Seq::new(
                self.rows@.len(),
                |r: int|
                    Seq::new(
                        self.cols@.len(),
                        |c: int| self.elems@[r * self.cols@.len() + c].truth(),
                    ),
            ),
        }
    }
}

impl<L: Copy, B: ToBool + Copy> Matrix<L, B> {
    /// A copy of the matrix.
    pub fn duplicate(&self) -> (m: Self)
        ensures
            m.cols@ == self.cols@,
            m.rows@ == self.rows@,
            m.elems@ == self.elems@,
            m.col_indent == self.col_indent,
    {
        let mut cols: Vec<L> = Vec::new();
        let mut k: usize = 0;
        while k < self.cols.len()
            invariant
                0 <= k <= self.cols.len(),
                cols@ == self.cols@.take(k as int),
            decreases self.cols.len() - k,
        {
            cols.push(self.cols[k]);
            k = k + 1;
            assert(cols@ =~= self.cols@.take(k as int));
        }
        let mut rows: Vec<L> = Vec::new();
        let mut k: usize = 0;
        while k < self.rows.len()
            invariant
                0 <= k <= self.rows.len(),
                rows@ == self.rows@.take(k as int),
            decreases self.rows.len() - k,
        {
            rows.push(self.rows[k]);
            k = k + 1;
            assert(rows@ =~= self.rows@.take(k as int));
        }
        let mut elems: Vec<B> = Vec::new();
        let mut k: usize = 0;
        while k < self.elems.len()
            invariant
                0 <= k <= self.elems.len(),
                elems@ == self.elems@.take(k as int),
            decreases self.elems.len() - k,
        {
            elems.push(self.elems[k]);
            k = k + 1;
            assert(elems@ =~= self.elems@.take(k as int));
        }
        assert(self.cols@.take(self.cols.len() as int) =~= self.cols@);
        assert(self.rows@.take(self.rows.len() as int) =~= self.rows@);
        assert(self.elems@.take(self.elems.len() as int) =~= self.elems@);
        Matrix { col_indent: self.col_indent.clone(), cols: cols, rows: rows, elems: elems }
    }
}

/// The bits of the model are the bits of the matrix.
pub proof fn lemma_grid_bit<L: Copy, B: ToBool + Copy>(m: &Matrix<L, B>, c: int, r: int)
    requires
        0 <= c < m.cols@.len(),
        0 <= r < m.rows@.len(),
    ensures
        m.grid().bits[r][c] == m.bit(c, r),
{
}

/// The set rows of a column of the matrix are those of its model.
pub proof fn lemma_grid_rows_on<L: Copy, B: ToBool + Copy>(m: &Matrix<L, B>, c: int, n: int)
    requires
        0 <= c < m.cols@.len(),
        n <= m.rows@.len(),
    ensures
        set_rows(m, c, n) == m.grid().rows_on(c, n),
    decreases n,
{
    if n > 0 {
        lemma_grid_rows_on(m, c, n - 1);
        lemma_grid_bit(m, c, n - 1);
    }
}

/// The set columns of a row of the matrix are those of its model.
pub proof fn lemma_grid_cols_on<L: Copy, B: ToBool + Copy>(m: &Matrix<L, B>, r: int, n: int)
    requires
        0 <= r < m.rows@.len(),
        n <= m.cols@.len(),
    ensures
        set_cols(m, r, n) == m.grid().cols_on(r, n),
    decreases n,
{
    if n > 0 {
        lemma_grid_cols_on(m, r, n - 1);
        lemma_grid_bit(m, n - 1, r);
    }
}

/// The model of a matrix without one of its rows.
pub proof fn lemma_grid_without_row<L: Copy, B: ToBool + Copy>(
    a: &Matrix<L, B>,
    m: &Matrix<L, B>,
    row: int,
)
    requires
        0 <= row < a.rows@.len(),
        m.rows@ == a.rows@.remove(row),
        m.cols@ == a.cols@,
        forall|c: int, r: int|
            0 <= c < m.spec_cols() && 0 <= r < m.spec_rows() ==> #[trigger] m.bit(c, r) == a.bit(
                c,
                if r < row {
                    r
                } else {
                    r + 1
                },
            ),
    ensures
        m.grid() == a.grid().without_row(row),
{
    let g = m.grid();
    let h = a.grid().without_row(row);
    assert(g.bits.len() == h.bits.len());
    assert forall|r: int| 0 <= r < g.bits.len() implies g.bits[r] =~= h.bits[r] by {
        assert forall|c: int| 0 <= c < g.bits[r].len() implies g.bits[r][c] == h.bits[r][c] by {
            assert(m.bit(c, r) == a.bit(
                c,
                if r < row {
                    r
                } else {
                    r + 1
                },
            ));
        }
    }
    assert(g.bits =~= h.bits);
    assert(g =~= h);
}

/// The model of a matrix without one of its columns.
pub proof fn lemma_grid_without_col<L: Copy, B: ToBool + Copy>(
    a: &Matrix<L, B>,
    m: &Matrix<L, B>,
    col: int,
)
    requires
        0 <= col < a.cols@.len(),
        m.rows@ == a.rows@,
        m.cols@ == a.cols@.remove(col),
        forall|c: int, r: int|
            0 <= c < m.spec_cols() && 0 <= r < m.spec_rows() ==> #[trigger] m.bit(c, r) == a.bit(
                if c < col {
                    c
                } else {
                    c + 1
                },
                r,
            ),
    ensures
        m.grid() == a.grid().without_col(col),
{
    let g = m.grid();
    let h = a.grid().without_col(col);
    assert(g.bits.len() == h.bits.len());
    assert forall|r: int| 0 <= r < g.bits.len() implies g.bits[r] =~= h.bits[r] by {
        assert forall|c: int| 0 <= c < g.bits[r].len() implies g.bits[r][c] == h.bits[r][c] by {
            assert(m.bit(c, r) == a.bit(
                if c < col {
                    c
                } else {
                    c + 1
                },
                r,
            ));
        }
    }
    assert(g.bits =~= h.bits);
    assert(g =~= h);
}

/// In a rising sequence of numbers below `n`, the one at place `k` leaves
/// room below `n` for those behind it.
pub proof fn lemma_rising_bound(s: Seq<int>, n: int, k: int)
    requires
        forall|i: int| 0 <= i < s.len() ==> #[trigger] s[i] < n,
        forall|i: int, j: int| 0 <= i < j < s.len() ==> #[trigger] s[i] < #[trigger] s[j],
        0 <= k < s.len(),
    ensures
        s[k] + (s.len() - k) <= n,
    decreases s.len() - k,
{
    if k + 1 < s.len() {
        lemma_rising_bound(s, n, k + 1);
    }
}

/// A solution under construction: the components chosen so far, by name.
pub trait Solution<T>: Sized {
    /// The names of the components of the solution.
    spec fn parts(&self) -> Seq<Seq<char>>;

    /// The name of a component.
    spec fn name(component: T) -> Seq<char>;

    /// This solution with `component`, unless it holds a component of that
    /// name already.
    fn include_part(&self, component: &T) -> (r: Self)
        ensures
            r.parts() == included(self.parts(), Self::name(*component)),
    ;

    /// A copy of this solution.
    fn duplicate(&self) -> (r: Self)
        ensures
            r.parts() == self.parts(),
    ;
}

/// The names `parts`, with `p` added at the end unless it is among them.
pub open spec fn included(parts: Seq<Seq<char>>, p: Seq<char>) -> Seq<Seq<char>> {
    if parts.contains(p) {
        parts
    } else {
        parts.push(p)
    }
}

/// The strings of `v`, as texts.
pub open spec fn texts(v: Seq<String>) -> Seq<Seq<char>> {
    Seq::new(v.len(), |i: int| v[i]@)
}

/// A copy of the strings `v`.
fn copy_strings(v: &Vec<String>) -> (r: Vec<String>)
    ensures
        texts(r@) == texts(v@),
{
    let mut r: Vec<String> = Vec::new();
    let mut k: usize = 0;
    while k < v.len()
        invariant
            0 <= k <= v.len(),
            r@.len() == k,
            texts(r@) == texts(v@.take(k as int)),
        decreases v.len() - k,
    {
        let ghost before = r@;
        let copy = v[k].clone();
        r.push(copy);
        k = k + 1;
        proof {
            let got = texts(r@);
            let want = texts(v@.take(k as int));
            assert forall|i: int| 0 <= i < got.len() implies got[i] == want[i] by {
                if i < k - 1 {
                    assert(r@[i] == before[i]);
                    assert(texts(before)[i] == texts(v@.take(k - 1))[i]);
                }
            }
            assert(got =~= want);
        }
    }
    assert(v@.take(v.len() as int) =~= v@);
    r
}

/// The strings `v`, with `copy` added at the end unless it is among them.
fn include_string(v: &Vec<String>, copy: String) -> (r: Vec<String>)
    ensures
        texts(r@) == included(texts(v@), copy@),
{
    let mut r = copy_strings(v);
    let mut present = false;
    let mut k: usize = 0;
    while k < r.len()
        invariant
            0 <= k <= r.len(),
            texts(r@) == texts(v@),
            present <==> exists|i: int| 0 <= i < k && #[trigger] texts(r@)[i] == copy@,
        decreases r.len() - k,
    {
        if r[k] == copy {
            present = true;
            assert(texts(r@)[k as int] == copy@);
        }
        k = k + 1;
    }
    proof {
        if texts(v@).contains(copy@) {
            let i = choose|i: int| 0 <= i < texts(v@).len() && texts(v@)[i] == copy@;
            assert(texts(r@)[i] == copy@);
        }
    }
    if !present {
        r.push(copy);
        assert(texts(r@) =~= texts(v@).push(copy@));
    }
    r
}

impl Solution<&'static str> for Vec<String> {
    open spec fn parts(&self) -> Seq<Seq<char>> {
        texts(self@)
    }

    open spec fn name(component: &'static str) -> Seq<char> {
        component@
    }

    fn include_part(&self, component: &&'static str) -> (r: Self) {
        include_string(self, String::from_str(*component))
    }

    fn duplicate(&self) -> (r: Self) {
        copy_strings(self)
    }
}

impl Solution<String> for Vec<String> {
    open spec fn parts(&self) -> Seq<Seq<char>> {
        texts(self@)
    }

    open spec fn name(component: String) -> Seq<char> {
        component@
    }

    fn include_part(&self, component: &String) -> (r: Self) {
        include_string(self, component.clone())
    }

    fn duplicate(&self) -> (r: Self) {
        copy_strings(self)
    }
}

/// The first column that has a bit set, if any has.
pub fn choose_nonzero_col<M: BitMatrix>(m: &M) -> (col: Option<usize>)
    requires
        m.ok(),
    ensures
        match col {
            Some(c) => {
                &&& c < m.spec_cols()
                &&& exists|r: int| 0 <= r < m.spec_rows() && #[trigger] m.bit(c as int, r)
                &&& forall|c2: int, r: int|
                    0 <= c2 < c && 0 <= r < m.spec_rows() ==> !#[trigger] m.bit(c2, r)
            },
            None => forall|c2: int, r: int|
                0 <= c2 < m.spec_cols() && 0 <= r < m.spec_rows() ==> !#[trigger] m.bit(c2, r),
        },
{
    let nc = m.num_cols();
    let mut c: usize = 0;
    while c < nc
        invariant
            m.ok(),
            nc == m.spec_cols(),
            0 <= c <= nc,
            forall|c2: int, r: int|
                0 <= c2 < c && 0 <= r < m.spec_rows() ==> !#[trigger] m.bit(c2, r),
        decreases nc - c,
    {
        let nr = m.num_rows();
        let mut r: usize = 0;
        while r < nr
            invariant
                m.ok(),
                nc == m.spec_cols(),
                nr == m.spec_rows(),
                0 <= c < nc,
                0 <= r <= nr,
                forall|c2: int, r2: int|
                    0 <= c2 < c && 0 <= r2 < m.spec_rows() ==> !#[trigger] m.bit(c2, r2),
                forall|r2: int| 0 <= r2 < r ==> !#[trigger] m.bit(c as int, r2),
            decreases nr - r,
        {
            if m.at(c, r) {
                assert(m.bit(c as int, r as int));
                return Some(c);
            }
            r = r + 1;
        }
        c = c + 1;
    }
    None
}

/// A strategy for choosing the column to satisfy next in the dense
/// matrix. Its choice depends on nothing but the labels and bits of the
/// matrix, and it is a column of the matrix.
pub trait DenseChoice<L: Copy> {
    /// The column that this strategy picks in the grid `g`.
    spec fn choice(&self, g: Grid<L>) -> int;

    /// Picks the column to satisfy next.
    fn select<B: ToBool + Copy>(&self, m: &Matrix<L, B>) -> (c: usize)
        requires
            m.dims_ok(),
            m.cols@.len() > 0,
        ensures
            c == self.choice(m.grid()),
            c < m.cols@.len(),
    ;
}

/// The strategy that picks the first column that has a bit set, and the
/// first column where none has.
pub struct FirstNonzero;

/// Where no column before `c` has a bit set, the first column with a bit
/// set is the first from `c` on.
proof fn lemma_first_nonzero<L>(g: Grid<L>, c: int)
    requires
        0 <= c <= g.cols.len(),
        forall|c2: int| 0 <= c2 < c ==> !#[trigger] g.col_has_bit(c2),
    ensures
        g.first_nonzero(0) == g.first_nonzero(c),
    decreases c,
{
    if c > 0 {
        lemma_first_nonzero(g, c - 1);
        assert(!g.col_has_bit(c - 1));
    }
}

impl<L: Copy> DenseChoice<L> for FirstNonzero {
    open spec fn choice(&self, g: Grid<L>) -> int {
        g.first_nonzero(0)
    }

    fn select<B: ToBool + Copy>(&self, m: &Matrix<L, B>) -> (c: usize) {
        let found = choose_nonzero_col(m);
        let ghost g = m.grid();
        match found {
            Some(c) => {
                proof {
                    assert forall|c2: int| 0 <= c2 < c implies !#[trigger] g.col_has_bit(c2) by {
                        if g.col_has_bit(c2) {
                            let r = choose|r: int| 0 <= r < g.rows.len() && #[trigger] g.bits[r][c2];
                            lemma_grid_bit(m, c2, r);
                            assert(m.bit(c2, r));
                        }
                    }
                    lemma_first_nonzero(g, c as int);
                    let r = choose|r: int| 0 <= r < m.spec_rows() && #[trigger] m.bit(c as int, r);
                    lemma_grid_bit(m, c as int, r);
                    assert(g.bits[r][c as int]);
                    assert(g.col_has_bit(c as int));
                }
                c
            },
            None => {
                proof {
                    assert forall|c2: int| 0 <= c2 < g.cols.len() implies !#[trigger] g.col_has_bit(
                        c2,
                    ) by {
                        if g.col_has_bit(c2) {
                            let r = choose|r: int| 0 <= r < g.rows.len() && #[trigger] g.bits[r][c2];
                            lemma_grid_bit(m, c2, r);
                            assert(m.bit(c2, r));
                        }
                    }
                    lemma_first_nonzero(g, g.cols.len() as int);
                }
                0
            },
        }
    }
}

/// The solutions `v`, each as the names of its components.
pub open spec fn solution_parts<T, S: Solution<T>>(v: Seq<S>) -> Seq<Seq<Seq<char>>> {
    Seq::new(v.len(), |i: int| v[i].parts())
}

/// The solutions that the plain solver finds for the grid `g` with the
/// strategy `h`, in the order in which it finds them, each as the names of
/// its components: those of `partial`, and then, by `name`, the labels of
/// the rows chosen.
pub open spec fn dense_found<L: Copy, H: DenseChoice<L>>(
    h: &H,
    g: Grid<L>,
    partial: Seq<Seq<char>>,
    name: spec_fn(L) -> Seq<char>,
) -> Seq<Seq<Seq<char>>>
    decreases g.cols.len(), 1int, 0int,
{
    if g.cols.len() == 0 {
        seq![partial]
    } else {
        let rows = g.rows_on(h.choice(g), g.rows.len() as int);
        dense_rows(h, g, partial, name, rows, rows.len() as int)
    }
}

/// The solutions that the plain solver finds for the grid `g` by choosing,
/// one after another, the first `k` of the rows `rows`.
pub open spec fn dense_rows<L: Copy, H: DenseChoice<L>>(
    h: &H,
    g: Grid<L>,
    partial: Seq<Seq<char>>,
    name: spec_fn(L) -> Seq<char>,
    rows: Seq<int>,
    k: int,
) -> Seq<Seq<Seq<char>>>
    decreases g.cols.len(), 0int, k,
{
    if k <= 0 {
        Seq::empty()
    } else {
        let r = rows[k - 1];
        let g2 = g.choose_row(r);
        let sub = if g2.cols.len() < g.cols.len() {
            dense_found(h, g2, included(partial, name(g.rows[r])), name)
        } else {
            Seq::empty()
        };
        dense_rows(h, g, partial, name, rows, k - 1) + sub
    }
}

/// Every solution of the exact-cover problem `a` that the plain solver
/// finds with the strategy `select_col`, each as `partial_soln` with the
/// labels of the rows that it chooses.
pub fn find_solutions<L: Copy, B: ToBool + Copy, S: Solution<L>, H: DenseChoice<L>>(
    a: &Matrix<L, B>,
    partial_soln: &S,
    select_col: &H,
) -> (solns: Vec<S>)
    requires
        a.dims_ok(),
    ensures
        solution_parts(solns@) == dense_found(
            select_col,
            a.grid(),
            partial_soln.parts(),
            |l: L| S::name(l),
        ),
{
    recur(0, a, partial_soln, select_col)
}

/// The plain solver at depth `level`: where no column is left,
/// `partial_soln` is the one solution; else a column is chosen, and for
/// each row with a bit in it, from the top down, the matrix is cut down by
/// the columns of that row and the rows that share one, and solved again
/// with the label of the row added.
pub fn recur<L: Copy, B: ToBool + Copy, S: Solution<L>, H: DenseChoice<L>>(
    level: usize,
    a: &Matrix<L, B>,
    partial_soln: &S,
    select_col: &H,
) -> (solns: Vec<S>)
    requires
        a.dims_ok(),
        level + a.cols@.len() <= usize::MAX,
    ensures
        solution_parts(solns@) == dense_found(
            select_col,
            a.grid(),
            partial_soln.parts(),
            |l: L| S::name(l),
        ),
    decreases a.cols@.len(),
{
    let ghost g = a.grid();
    let ghost name = |l: L| S::name(l);
    let mut solns: Vec<S> = Vec::new();
    if a.is_covered() {
        solns.push(partial_soln.duplicate());
        assert(solution_parts(solns@) =~= seq![partial_soln.parts()]);
        return solns;
    }
    let c = select_col.select(a);
    let rows = rows_on(a, c);
    let nc = a.num_cols();
    let nr = a.num_rows();
    let ghost rows_i = g.rows_on(c as int, nr as int);
    proof {
        lemma_grid_rows_on(a, c as int, nr as int);
        lemma_set_rows(a, c as int, nr as int);
        assert(rows@.map_values(|r: usize| r as int) == rows_i);
        assert(rows@.len() == rows_i.len());
    }
    let mut k: usize = 0;
    while k < rows.len()
        invariant
            a.dims_ok(),
            g == a.grid(),
            name == |l: L| S::name(l),
            nc == a.cols@.len(),
            nr == a.rows@.len(),
            nc > 0,
            c < nc,
            level + nc <= usize::MAX,
            rows_i == g.rows_on(c as int, nr as int),
            rows_i == set_rows(a, c as int, nr as int),
            rows@.map_values(|r: usize| r as int) == rows_i,
            0 <= k <= rows.len(),
            solution_parts(solns@) == dense_rows(
                select_col,
                g,
                partial_soln.parts(),
                name,
                rows_i,
                k as int,
            ),
        decreases rows.len() - k,
    {
        let r = rows[k];
        proof {
            lemma_set_rows(a, c as int, nr as int);
            assert(rows@.map_values(|r: usize| r as int)[k as int] == r as int);
            assert(rows_i[k as int] == r);
            assert(a.bit(c as int, r as int));
        }
        let partial = partial_soln.include_part(a.row_label(r));
        let cols = cols_on(a, r);
        let ghost cols_i = g.cols_on(r as int, nc as int);
        proof {
            lemma_grid_cols_on(a, r as int, nc as int);
            lemma_set_cols(a, r as int, nc as int);
            assert(cols@.map_values(|c: usize| c as int) == cols_i);
            assert(cols@.len() == cols_i.len());
            lemma_has_bit(a, c as int, r as int, nc as int);
        }
        let mut a_new = a.duplicate();
        assert(a_new.grid() =~= g);
        let mut t: usize = cols.len();
        while t > 0
            invariant
                a.dims_ok(),
                g == a.grid(),
                nc == a.cols@.len(),
                nr == a.rows@.len(),
                r < nr,
                cols_i == g.cols_on(r as int, nc as int),
                cols_i == set_cols(a, r as int, nc as int),
                cols@.map_values(|c: usize| c as int) == cols_i,
                cols@.len() == cols_i.len(),
                0 <= t <= cols.len(),
                a_new.dims_ok(),
                a_new.grid() == g.reduce(cols_i, t as int),
                a_new.cols@.len() == nc - (cols.len() - t),
            decreases t,
        {
            t = t - 1;
            let j = cols[t];
            let ghost g_t = a_new.grid();
            proof {
                lemma_set_cols(a, r as int, nc as int);
                assert(cols@.map_values(|c: usize| c as int)[t as int] == j as int);
                lemma_rising_bound(cols_i, nc as int, t as int);
            }
            let rows2 = rows_on(&a_new, j);
            let ghost nr2 = a_new.rows@.len() as int;
            let ghost rows2_i = g_t.rows_on(j as int, nr2);
            proof {
                lemma_grid_rows_on(&a_new, j as int, nr2);
                lemma_set_rows(&a_new, j as int, nr2);
                assert(rows2@.map_values(|r: usize| r as int) == rows2_i);
                assert(rows2@.len() == rows2_i.len());
            }
            let ghost a_t = a_new;
            let mut u: usize = rows2.len();
            while u > 0
                invariant
                    rows2@.map_values(|r: usize| r as int) == rows2_i,
                    rows2@.len() == rows2_i.len(),
                    forall|i: int| 0 <= i < rows2_i.len() ==> #[trigger] rows2_i[i] < nr2,
                    forall|i: int, j: int|
                        0 <= i < j < rows2_i.len() ==> #[trigger] rows2_i[i] < #[trigger] rows2_i[j],
                    0 <= u <= rows2.len(),
                    a_new.dims_ok(),
                    j < a_new.cols@.len(),
                    a_new.cols@.len() == a_t.cols@.len(),
                    a_new.rows@.len() == nr2 - (rows2.len() - u),
                    a_new.grid() == g_t.drop_rows(rows2_i, u as int),
                decreases u,
            {
                u = u - 1;
                let i = rows2[u];
                proof {
                    assert(rows2@.map_values(|r: usize| r as int)[u as int] == i as int);
                    lemma_rising_bound(rows2_i, nr2, u as int);
                }
                let ghost prev = a_new;
                let cut = a_new.without_row(i);
                proof {
                    lemma_grid_without_row(&prev, &cut, i as int);
                }
                a_new = cut;
            }
            let ghost prev = a_new;
            let cut = a_new.without_col(j);
            proof {
                lemma_grid_without_col(&prev, &cut, j as int);
            }
            a_new = cut;
        }
        proof {
            assert(a_new.grid() == g.choose_row(r as int));
            assert(cols_i.len() >= 1);
        }
        let mut sub = recur(level + 1, &a_new, &partial, select_col);
        let ghost before = solns@;
        let ghost got = sub@;
        solns.append(&mut sub);
        k = k + 1;
        proof {
            assert(solution_parts(solns@) =~= solution_parts(before) + solution_parts(got));
        }
    }
    solns
}

/// A row that has a bit set has a set column.
proof fn lemma_has_bit<M: BitMatrix>(m: &M, c: int, r: int, n: int)
    requires
        0 <= c < n,
        m.bit(c, r),
    ensures
        set_cols(m, r, n).len() >= 1,
    decreases n,
{
    if c < n - 1 {
        lemma_has_bit(m, c, r, n - 1);
    }
}

/// A problem of seven columns and six rows that has one solution: the
/// rows 1, 4 and 5.
pub fn simple_exact_cover_instance_1() -> (m: Matrix<&'static str, usize>)
    ensures
        m.dims_ok(),
        m.cols@.len() == 7,
        m.rows@.len() == 6,
        m.elems@ == seq![
            0usize, 0, 1, 0, 1, 1, 0,
            1, 0, 0, 1, 0, 0, 1,
            0, 1, 1, 0, 0, 1, 0,
            1, 0, 0, 1, 0, 0, 0,
            0, 1, 0, 0, 0, 0, 1,
            0, 0, 0, 1, 1, 0, 1,
        ],
{
    let m = Matrix {
        cols: vec!["a", "b", "c", "d", "e", "f", "g"],
        col_indent: String::from_str(" "),
        rows: vec!["1", "2", "3", "4", "5", "6"],
        elems: vec![
            0, 0, 1, 0, 1, 1, 0,
            1, 0, 0, 1, 0, 0, 1,
            0, 1, 1, 0, 0, 1, 0,
            1, 0, 0, 1, 0, 0, 0,
            0, 1, 0, 0, 0, 0, 1,
            0, 0, 0, 1, 1, 0, 1,
        ],
    };
    assert(m.elems@ =~= seq![
        0usize, 0, 1, 0, 1, 1, 0,
        1, 0, 0, 1, 0, 0, 1,
        0, 1, 1, 0, 0, 1, 0,
        1, 0, 0, 1, 0, 0, 0,
        0, 1, 0, 0, 0, 0, 1,
        0, 0, 0, 1, 1, 0, 1,
    ]);
    assert(m.elems.len() == 42 && m.rows.len() == 6 && m.cols.len() == 7);
    assert(m.rows.len() * m.cols.len() == 42) by (nonlinear_arith)
        requires
            m.rows.len() == 6,
            m.cols.len() == 7,
    ;
    m
}

/// A problem of three columns and two rows that has no solution.
pub fn simple_exact_cover_instance_2() -> (m: Matrix<&'static str, usize>)
    ensures
        m.dims_ok(),
        m.cols@.len() == 3,
        m.rows@.len() == 2,
        m.elems@ == seq![0usize, 1, 1, 1, 1, 0],
{
    let m = Matrix {
        rows: vec!["   a", "   b"],
        col_indent: String::from_str("    "),
        cols: vec!["1", "2", "3"],
        elems: vec![0, 1, 1, 1, 1, 0],
    };
    assert(m.elems@ =~= seq![0usize, 1, 1, 1, 1, 0]);
    assert(m.elems.len() == 6 && m.rows.len() == 2 && m.cols.len() == 3);
    assert(m.rows.len() * m.cols.len() == 6) by (nonlinear_arith)
        requires
            m.rows.len() == 2,
            m.cols.len() == 3,
    ;
    m
}

} // verus!
