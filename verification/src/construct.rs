//! Building the sparse matrix from a dense one: a header for each column,
//! then an entry for each set cell, column after column and row after row.

use crate::cover::wrap;
use crate::dancing_links::{
    cr_at, dc_at, next_pos, prev_pos, Cf, ColumnObj, DataObj, Df, DlxMatrix, Rings, RootObj,
    State, CR, DC,
};
use crate::exact_cover::{
    cell, lemma_cell_index, lemma_set_cols, lemma_set_rows, set_cols, set_rows, BitMatrix,
    ColLabelled, Matrix, RowLabelled,
};
use crate::links::lemma_column_kept;
use vstd::prelude::*;

verus! {

/// The place that a scan of a row of `w` places looks at in its step `k`,
/// when it starts beside place `col` and goes rightwards for `dir` 1 and
/// leftwards for `dir` -1, round the row.
pub open spec fn probe(col: int, k: int, dir: int, w: int) -> int {
    if dir < 0 {
        wrap(col + w - k, w)
    } else {
        wrap(col + k, w)
    }
}

/// The first entry that the scan of row `row` finds from its step `k` on,
/// if it finds one before it is back at place `col`.
pub open spec fn scan_from(
    elems: Seq<Option<Df>>,
    w: int,
    col: int,
    row: int,
    dir: int,
    k: int,
) -> Option<Df>
    decreases w - k,
{
    if k >= w || k < 1 {
        None
    } else {
        match elems[cell(w, probe(col, k, dir, w), row)] {
            Some(d) => Some(d),
            None => scan_from(elems, w, col, row, dir, k + 1),
        }
    }
}

/// A scan that meets nothing before step `kh` and an entry there finds that
/// entry.
pub proof fn lemma_scan_hit(
    elems: Seq<Option<Df>>,
    w: int,
    col: int,
    row: int,
    dir: int,
    k: int,
    kh: int,
    d: Df,
)
    requires
        1 <= k <= kh < w,
        elems[cell(w, probe(col, kh, dir, w), row)] == Some(d),
        forall|q: int| k <= q < kh ==> elems[cell(w, #[trigger] probe(col, q, dir, w), row)] is None,
    ensures
        scan_from(elems, w, col, row, dir, k) == Some(d),
    decreases kh - k,
{
    if k < kh {
        assert(elems[cell(w, probe(col, k, dir, w), row)] is None);
        lemma_scan_hit(elems, w, col, row, dir, k + 1, kh, d);
    }
}

/// A scan that meets nothing finds nothing.
pub proof fn lemma_scan_none(elems: Seq<Option<Df>>, w: int, col: int, row: int, dir: int, k: int)
    requires
        1 <= k,
        forall|q: int| k <= q < w ==> elems[cell(w, #[trigger] probe(col, q, dir, w), row)] is None,
    ensures
        scan_from(elems, w, col, row, dir, k) is None,
    decreases w - k,
{
    if k < w {
        assert(elems[cell(w, probe(col, k, dir, w), row)] is None);
        lemma_scan_none(elems, w, col, row, dir, k + 1);
    }
}

/// The place beside `x` in a row of `len` places: to the left for a
/// negative `dir`, else to the right, round the row.
fn step(x: usize, dir: isize, len: usize) -> (y: usize)
    requires
        x < len,
    ensures
        y < len,
        y == if dir < 0 {
            prev_pos(x as int, len as int)
        } else {
            next_pos(x as int, len as int)
        },
{
    if dir < 0 {
        if x == 0 {
            len - 1
        } else {
            x - 1
        }
    } else {
        if x + 1 == len {
            0
        } else {
            x + 1
        }
    }
}

/// The nearest entry of row `row` that is already placed, looking from
/// column `col` leftwards for `dir` -1 and rightwards for `dir` 1, round the
/// row; none if the row has no entry yet.
fn find<L>(m: &Matrix<L, Option<Df>>, col: usize, row: usize, dir: isize) -> (r: Option<Df>)
    requires
        col < m.cols.len(),
        (row + 1) * m.cols.len() <= m.elems.len(),
        dir == 1 || dir == -1,
    ensures
        r == scan_from(m.elems@, m.cols.len() as int, col as int, row as int, dir as int, 1),
{
    let width = m.cols.len();
    let ghost mut k: int = 1;
    let mut cursor = step(col, dir, width);
    while cursor != col
        invariant
            width == m.cols.len(),
            col < width,
            (row + 1) * width <= m.elems.len(),
            dir == 1 || dir == -1,
            1 <= k <= width,
            cursor == probe(col as int, k, dir as int, width as int),
            scan_from(m.elems@, width as int, col as int, row as int, dir as int, 1) == scan_from(
                m.elems@,
                width as int,
                col as int,
                row as int,
                dir as int,
                k,
            ),
        decreases width - k,
    {
        proof {
            lemma_cell_index(cursor as int, row as int, width as int, row + 1);
        }
        match m.at(cursor, row) {
            Some(df) => {
                return Some(*df);
            },
            None => {},
        }
        cursor = step(cursor, dir, width);
        proof {
            k = k + 1;
        }
    }
    None
}

impl<L> State<L> {
    /// The state with one more column, empty and last in the header ring.
    #[verifier::opaque]
    pub open spec fn push_col(self, label: L) -> State<L> {
        let c = Cf(self.cols.len() as usize);
        let obj = ColumnObj {
            l: self.root.l,
            r: CR::Rootcr,
            u: DC::Cdc(c),
            d: DC::Cdc(c),
            c,
            s: 0,
            n: label,
        };
        let s1 = State { cols: self.cols.push(obj), ..self };
        let s2 = s1.set_cr_r(self.root.l, CR::Ccr(c));
        let s3 = s2.set_cr_l(CR::Rootcr, CR::Ccr(c));
        State {
            rings: Rings {
                header: self.rings.header.push(c),
                column: self.rings.column.push(Seq::empty()),
                ..s3.rings
            },
            ..s3
        }
    }

    /// A matrix of `n` columns and `nr` rows that has no entry yet: every
    /// column is in the header ring, in the order of its number, and every
    /// ring of entries is empty.
    pub open spec fn fresh(self, n: int, nr: int) -> bool {
        &&& self.data.len() == 0
        &&& self.row_of.len() == 0
        &&& self.rings.pos.len() == 0
        &&& self.cols.len() == n
        &&& n <= usize::MAX
        &&& self.rings.column.len() == n
        &&& self.rings.header == Seq::new(n as nat, |k: int| Cf(k as usize))
        &&& self.rings.row == Seq::new(nr as nat, |r: int| Seq::<Df>::empty())
        &&& self.root.r == cr_at(self.rings.header, 0)
        &&& self.root.l == cr_at(self.rings.header, n - 1)
        &&& forall|c: int|
            0 <= c < n ==> {
                &&& (#[trigger] self.cols[c]).c.0 == c
                &&& self.cols[c].s == 0
                &&& self.cols[c].u == DC::Cdc(Cf(c as usize))
                &&& self.cols[c].d == DC::Cdc(Cf(c as usize))
                &&& self.cols[c].l == cr_at(self.rings.header, c - 1)
                &&& self.cols[c].r == cr_at(self.rings.header, c + 1)
                &&& self.rings.column[c].len() == 0
            }
    }

    /// The rows of the entries linked into column `c`, from the top down.
    pub open spec fn column_rows(self, c: Cf) -> Seq<int> {
        Seq::new(self.column(c).len(), |k: int| self.row_of[self.column(c)[k].0 as int] as int)
    }

    /// The columns of the entries of row `r`, from left to right.
    pub open spec fn row_cols(self, r: int) -> Seq<int> {
        Seq::new(self.row(r).len(), |k: int| self.col_of(self.row(r)[k]).0 as int)
    }

    /// Entry `d1` stands in an earlier column than entry `d2`, or higher in
    /// the same column.
    pub open spec fn precedes(self, d1: Df, d2: Df) -> bool {
        self.col_of(d1).0 < self.col_of(d2).0 || (self.col_of(d1) == self.col_of(d2)
            && self.row_of[d1.0 as int] < self.row_of[d2.0 as int])
    }

    /// The entries are numbered column after column, and from the top down
    /// within a column.
    pub open spec fn column_major(self) -> bool {
        forall|d1: Df, d2: Df|
            self.valid_df(d1) && self.valid_df(d2) && d1.0 < d2.0 ==> #[trigger] self.precedes(
                d1,
                d2,
            )
    }

    /// Entry `d` stands before the cell of column `col` and row `row`, in the
    /// order in which the cells are built.
    pub open spec fn built_before(self, d: Df, col: int, row: int) -> bool {
        self.col_of(d).0 < col || (self.col_of(d).0 == col && self.row_of[d.0 as int] < row)
    }

    /// The bound on the rows of the column `c` that are built, when the next
    /// cell to build is that of column `col` and row `row` of `nr` rows.
    pub open spec fn rows_built(c: int, col: int, row: int, nr: int) -> int {
        if c < col {
            nr
        } else if c == col {
            row
        } else {
            0
        }
    }

    /// This matrix holds what the construction has built of `input` when the
    /// next cell to look at is that of column `col` and row `row`: an entry
    /// for each set cell before it, every one linked.
    pub open spec fn built_upto<M: BitMatrix>(self, input: &M, col: int, row: int) -> bool {
        let nc = input.spec_cols() as int;
        let nr = input.spec_rows() as int;
        &&& self.rings_ok()
        &&& self.cols.len() == nc
        &&& self.rings.row.len() == nr
        &&& self.rings.header == Seq::new(nc as nat, |k: int| Cf(k as usize))
        &&& forall|d: Df| self.valid_df(d) ==> #[trigger] self.linked(d)
        &&& forall|c: Cf|
            self.valid_cf(c) ==> #[trigger] self.column_rows(c) == set_rows(
                input,
                c.0 as int,
                Self::rows_built(c.0 as int, col, row, nr),
            )
        &&& forall|r: int|
            0 <= r < nr ==> #[trigger] self.row_cols(r) == set_cols(
                input,
                r,
                if r < row {
                    col + 1
                } else {
                    col
                },
            )
        &&& self.column_major()
        &&& forall|d: Df| self.valid_df(d) ==> #[trigger] self.built_before(d, col, row)
    }

    /// This matrix is the sparse form of `input`: it is well formed, every
    /// column is in the header ring in the order of its number, the ring of
    /// each column holds an entry for each set cell of the column of
    /// `input`, from the top down, each row holds an entry for each set
    /// cell of the row, from left to right, and the entries are numbered
    /// column after column.
    pub open spec fn built_from<M: BitMatrix>(self, input: &M) -> bool {
        &&& self.wf()
        &&& self.cols.len() == input.spec_cols()
        &&& self.rings.row.len() == input.spec_rows()
        &&& self.rings.header == Seq::new(input.spec_cols(), |k: int| Cf(k as usize))
        &&& forall|c: Cf|
            self.valid_cf(c) ==> #[trigger] self.column_rows(c) == set_rows(
                input,
                c.0 as int,
                input.spec_rows() as int,
            )
        &&& forall|r: int|
            0 <= r < input.spec_rows() ==> #[trigger] self.row_cols(r) == set_cols(
                input,
                r,
                input.spec_cols() as int,
            )
        &&& self.column_major()
    }

    /// The state with one more entry, in column `c` and row `row`: last in
    /// the ring of its column and last in its row.
    #[verifier::opaque]
    pub open spec fn with_entry(self, c: Cf, row: int) -> State<L> {
        let d = Df(self.data.len() as usize);
        let rw = self.row(row);
        let l = if rw.len() == 0 {
            d
        } else {
            rw.last()
        };
        let r = if rw.len() == 0 {
            d
        } else {
            rw.first()
        };
        let up = dc_at(c, self.column(c), self.column(c).len() - 1);
        let s1 = State {
            data: self.data.push(DataObj { l, r, u: up, d: DC::Cdc(c), c }),
            row_of: self.row_of.push(row as usize),
            ..self
        };
        let s2 = s1.set_df_r(l, d);
        let s3 = s2.set_df_l(r, d);
        let s4 = s3.set_dc_d(up, DC::Ddc(d));
        let s5 = s4.set_dc_u(DC::Cdc(c), DC::Ddc(d));
        let s6 = s5.set_s(c, (s5.cols[c.0 as int].s + 1) as usize);
        State {
            rings: Rings {
                header: self.rings.header,
                column: self.rings.column.update(c.0 as int, self.column(c).push(d)),
                row: self.rings.row.update(row, rw.push(d)),
                pos: self.rings.pos.push(rw.len() as int),
            },
            ..s6
        }
    }

    /// State `t` is this state with one more entry in column `c` and row
    /// `row`, field by field.
    pub open spec fn entry_added(self, t: State<L>, c: Cf, row: int) -> bool {
        let n = self.data.len() as int;
        let d = Df(n as usize);
        let rw = self.row(row);
        let lst = self.column(c);
        let up = dc_at(c, lst, lst.len() - 1);
        &&& t.data.len() == n + 1
        &&& t.cols.len() == self.cols.len()
        &&& t.root == self.root
        &&& t.row_of == self.row_of.push(row as usize)
        &&& t.rings.header == self.rings.header
        &&& t.rings.pos == self.rings.pos.push(rw.len() as int)
        &&& t.rings.row == self.rings.row.update(row, rw.push(d))
        &&& t.rings.column == self.rings.column.update(c.0 as int, lst.push(d))
        &&& t.data[n] == (DataObj {
            l: if rw.len() == 0 {
                d
            } else {
                rw.last()
            },
            r: if rw.len() == 0 {
                d
            } else {
                rw.first()
            },
            u: up,
            d: DC::Cdc(c),
            c,
        })
        &&& forall|x: Df|
            self.valid_df(x) ==> {
                &&& (#[trigger] t.data[x.0 as int]).c == self.data[x.0 as int].c
                &&& t.data[x.0 as int].u == self.data[x.0 as int].u
                &&& t.data[x.0 as int].l == if rw.len() > 0 && x == rw.first() {
                    d
                } else {
                    self.data[x.0 as int].l
                }
                &&& t.data[x.0 as int].r == if rw.len() > 0 && x == rw.last() {
                    d
                } else {
                    self.data[x.0 as int].r
                }
                &&& t.data[x.0 as int].d == if up == DC::Ddc(x) {
                    DC::Ddc(d)
                } else {
                    self.data[x.0 as int].d
                }
            }
        &&& forall|y: Cf|
            self.valid_cf(y) ==> {
                &&& (#[trigger] t.cols[y.0 as int]).l == self.cols[y.0 as int].l
                &&& t.cols[y.0 as int].r == self.cols[y.0 as int].r
                &&& t.cols[y.0 as int].c == self.cols[y.0 as int].c
                &&& t.cols[y.0 as int].n == self.cols[y.0 as int].n
                &&& t.cols[y.0 as int].u == if y == c {
                    DC::Ddc(d)
                } else {
                    self.cols[y.0 as int].u
                }
                &&& t.cols[y.0 as int].d == if up == DC::Cdc(y) {
                    DC::Ddc(d)
                } else {
                    self.cols[y.0 as int].d
                }
                &&& t.cols[y.0 as int].s == if y == c {
                    self.cols[y.0 as int].s + 1
                } else {
                    self.cols[y.0 as int].s as int
                }
            }
    }
}

/// What `with_entry` changes, field by field.
pub proof fn lemma_with_entry_fields<L>(s: State<L>, c: Cf, row: int)
    requires
        s.rings_ok(),
        s.valid_cf(c),
        0 <= row < s.rings.row.len(),
        row <= usize::MAX,
        s.data.len() < usize::MAX,
        s.cols[c.0 as int].s < usize::MAX,
    ensures
        s.entry_added(s.with_entry(c, row), c, row),
{
    reveal(State::with_entry);
    let t = s.with_entry(c, row);
    let n = s.data.len() as int;
    let d = Df(n as usize);
    let rw = s.row(row);
    let lst = s.column(c);
    assert(s.column_ok(c));
    if rw.len() > 0 {
        assert(s.place_ok(row, 0));
        assert(s.place_ok(row, rw.len() - 1));
    }
    if lst.len() > 0 {
        assert(s.col_link_ok(c, lst.len() - 1));
    }
    assert(t.rings.row == s.rings.row.update(row, rw.push(d)));
}

/// One more entry keeps the shape and the rows in order.
proof fn lemma_entry_rows<L, M: BitMatrix>(s: State<L>, t: State<L>, input: &M, c: Cf, row: int)
    requires
        s.built_upto(input, c.0 as int, row),
        s.valid_cf(c),
        0 <= row < s.rings.row.len(),
        row <= usize::MAX,
        s.data.len() < usize::MAX,
        s.entry_added(t, c, row),
    ensures
        t.shape_ok(),
        t.rows_ok(),
        t.header_ok(),
{
    let n = s.data.len() as int;
    let d = Df(n as usize);
    let rw = s.row(row);
    let len = rw.len() as int;
    let rw2 = rw.push(d);
    lemma_set_cols(input, row, c.0 as int);
    assert(s.row_cols(row) == set_cols(input, row, c.0 as int));
    assert forall|k: int| 0 <= k < len implies s.col_of(#[trigger] rw[k]).0 < c.0 by {
        assert(s.row_cols(row)[k] == s.col_of(rw[k]).0);
    }
    assert forall|y: int| 0 <= y < t.cols.len() implies (#[trigger] t.cols[y]).c.0 == y by {
        let yc = Cf(y as usize);
        assert(s.valid_cf(yc));
        assert(t.cols[yc.0 as int].c == s.cols[yc.0 as int].c);
        assert(s.cols[y].c.0 == y);
    }
    assert forall|r: int, k: int|
        0 <= r < t.rings.row.len() && 0 <= k < t.rings.row[r].len() implies #[trigger] t.place_ok(
        r,
        k,
    ) by {
        if r == row {
            assert(t.rings.row[r] == rw2);
            if k < len {
                assert(s.place_ok(r, k));
                assert(rw2[k] == rw[k]);
            } else {
                assert(rw2[k] == d);
            }
        } else {
            assert(t.rings.row[r] == s.rings.row[r]);
            assert(s.place_ok(r, k));
        }
    }
    assert forall|x: int| 0 <= x < t.data.len() implies #[trigger] t.entry_ok(x) by {
        if x < n {
            let xd = Df(x as usize);
            assert(s.valid_df(xd));
            assert(s.entry_ok(x));
            let rx = s.row_of[x] as int;
            let p = s.rings.pos[x];
            assert(t.data[xd.0 as int].c == s.data[xd.0 as int].c);
            if len > 0 {
                assert(s.place_ok(row, 0));
                assert(s.place_ok(row, len - 1));
            }
            if rx == row {
                assert(t.rings.row[rx] == rw2);
                assert(rw2[p] == rw[p]);
                if p + 1 < len {
                    assert(rw2[p + 1] == rw[p + 1]);
                }
                if p > 0 {
                    assert(rw2[p - 1] == rw[p - 1]);
                }
            } else {
                assert(t.rings.row[rx] == s.rings.row[rx]);
            }
        } else {
            assert(t.rings.row[row] == rw2);
            if len > 0 {
                assert(rw2[0] == rw[0]);
                assert(rw2[len - 1] == rw[len - 1]);
            }
        }
    }
    assert forall|r: int, k1: int, k2: int|
        0 <= r < t.rings.row.len() && 0 <= k1 < k2 < t.rings.row[r].len() implies #[trigger] t.apart(
        r,
        k1,
        k2,
    ) by {
        if r == row {
            assert(t.rings.row[r] == rw2);
            assert(s.place_ok(r, k1));
            assert(t.data[rw[k1].0 as int].c == s.data[rw[k1].0 as int].c);
            if k2 == len {
                assert(s.col_of(rw[k1]).0 < c.0);
            } else {
                assert(s.apart(r, k1, k2));
                assert(s.place_ok(r, k2));
                assert(t.data[rw[k2].0 as int].c == s.data[rw[k2].0 as int].c);
            }
        } else {
            assert(s.apart(r, k1, k2));
            assert(s.place_ok(r, k1));
            assert(s.place_ok(r, k2));
            assert(t.data[s.rings.row[r][k1].0 as int].c == s.data[s.rings.row[r][k1].0 as int].c);
            assert(t.data[s.rings.row[r][k2].0 as int].c == s.data[s.rings.row[r][k2].0 as int].c);
        }
    }
    assert forall|k: int| 0 <= k < t.rings.header.len() implies #[trigger] t.header_link_ok(
        k,
    ) by {
        assert(s.header_link_ok(k));
        assert(t.cols[s.rings.header[k].0 as int].l == s.cols[s.rings.header[k].0 as int].l);
    }
}

/// One more entry keeps the vertical rings in order, and every entry
/// linked.
proof fn lemma_entry_columns<L, M: BitMatrix>(
    s: State<L>,
    t: State<L>,
    input: &M,
    c: Cf,
    row: int,
)
    requires
        s.built_upto(input, c.0 as int, row),
        s.valid_cf(c),
        0 <= row < s.rings.row.len(),
        row <= usize::MAX,
        s.data.len() < usize::MAX,
        s.entry_added(t, c, row),
    ensures
        t.columns_ok(),
        forall|x: Df| t.valid_df(x) ==> #[trigger] t.linked(x),
{
    let n = s.data.len() as int;
    let d = Df(n as usize);
    let lst = s.column(c);
    let len = lst.len() as int;
    let lst2 = lst.push(d);
    let up = dc_at(c, lst, len - 1);
    assert(s.column_ok(c));
    assert forall|k: int| 0 <= k < len implies (#[trigger] lst[k]).0 < n && s.col_of(lst[k])
        == c by {
        assert(s.col_link_ok(c, k));
    }
    assert forall|c2: Cf| t.valid_cf(c2) implies #[trigger] t.column_ok(c2) by {
        assert(s.column_ok(c2));
        if c2 != c {
            assert(t.cols[c2.0 as int].u == s.cols[c2.0 as int].u);
            assert forall|x: Df| s.valid_df(x) && s.col_of(x) == c2 implies {
                &&& (#[trigger] t.data[x.0 as int]).u == s.data[x.0 as int].u
                &&& t.data[x.0 as int].d == s.data[x.0 as int].d
                &&& t.data[x.0 as int].c == s.data[x.0 as int].c
            } by {
                if up == DC::Ddc(x) {
                    assert(lst[len - 1] == x);
                }
            }
            assert(t.column(c2) == s.column(c2));
            lemma_column_kept(s, t, c2);
        } else {
            assert(t.column(c) == lst2);
            assert(t.cols[c.0 as int].u == DC::Ddc(d));
            assert forall|k: int| 0 <= k < lst2.len() implies #[trigger] t.col_link_ok(c, k) by {
                if k < len {
                    let x = lst[k];
                    assert(lst2[k] == x);
                    assert(s.col_link_ok(c, k));
                    assert(t.data[x.0 as int].u == s.data[x.0 as int].u);
                    if k + 1 < len {
                        assert(lst2[k + 1] == lst[k + 1]);
                        assert(lst[k] != lst[len - 1]);
                    }
                    if k >= 1 {
                        assert(lst2[k - 1] == lst[k - 1]);
                    }
                } else {
                    if len > 0 {
                        assert(lst2[len - 1] == lst[len - 1]);
                    }
                }
            }
            assert(lst2.no_duplicates());
            if len > 0 {
                assert(lst2[0] == lst[0]);
            }
        }
    }
    assert forall|x: Df| t.valid_df(x) implies #[trigger] t.linked(x) by {
        if x.0 < n {
            assert(s.valid_df(x));
            assert(s.linked(x));
            assert(s.entry_ok(x.0 as int));
            assert(t.data[x.0 as int].c == s.data[x.0 as int].c);
            let cx = s.col_of(x);
            let k = s.column(cx).index_of(x);
            assert(s.column(cx)[k] == x);
            if cx == c {
                assert(lst2[k] == x);
            } else {
                assert(t.column(cx) == s.column(cx));
            }
        } else {
            assert(x == d);
            assert(lst2[len] == d);
        }
    }
}

/// One more entry, for a set cell, takes the construction one cell
/// further.
proof fn lemma_entry_added<L, M: BitMatrix>(s: State<L>, t: State<L>, input: &M, c: Cf, row: int)
    requires
        s.built_upto(input, c.0 as int, row),
        s.valid_cf(c),
        0 <= row < s.rings.row.len(),
        row <= usize::MAX,
        s.data.len() < usize::MAX,
        input.bit(c.0 as int, row),
        s.entry_added(t, c, row),
    ensures
        t.built_upto(input, c.0 as int, row + 1),
{
    let n = s.data.len() as int;
    let d = Df(n as usize);
    let nr = input.spec_rows() as int;
    lemma_entry_rows(s, t, input, c, row);
    lemma_entry_columns(s, t, input, c, row);
    assert forall|y: Cf| t.valid_cf(y) implies #[trigger] t.column_rows(y) == set_rows(
        input,
        y.0 as int,
        State::<L>::rows_built(y.0 as int, c.0 as int, row + 1, nr),
    ) by {
        assert(s.column_rows(y) == set_rows(
            input,
            y.0 as int,
            State::<L>::rows_built(y.0 as int, c.0 as int, row, nr),
        ));
        assert(s.column_ok(y));
        if y == c {
            assert forall|k: int| 0 <= k < s.column(c).len() implies (#[trigger] s.column(
                c,
            )[k]).0 < n by {
                assert(s.col_link_ok(c, k));
            }
            assert(t.column(c) == s.column(c).push(d));
            assert forall|k: int| 0 <= k < t.column_rows(y).len() implies t.column_rows(y)[k]
                == s.column_rows(y).push(row)[k] by {
                if k < s.column(c).len() {
                    assert(t.column(c)[k] == s.column(c)[k]);
                    assert(s.column(c)[k].0 < n);
                }
            }
            assert(t.column_rows(y) =~= s.column_rows(y).push(row));
        } else {
            assert forall|k: int| 0 <= k < s.column(y).len() implies (#[trigger] s.column(
                y,
            )[k]).0 < n by {
                assert(s.col_link_ok(y, k));
            }
            assert(t.column_rows(y) =~= s.column_rows(y));
        }
    }
    assert forall|r: int| 0 <= r < nr implies #[trigger] t.row_cols(r) == set_cols(
        input,
        r,
        if r < row + 1 {
            c.0 + 1
        } else {
            c.0 as int
        },
    ) by {
        assert(s.row_cols(r) == set_cols(
            input,
            r,
            if r < row {
                c.0 + 1
            } else {
                c.0 as int
            },
        ));
        assert forall|k: int| 0 <= k < s.row(r).len() implies (#[trigger] s.row(r)[k]).0 < n
            && t.col_of(s.row(r)[k]) == s.col_of(s.row(r)[k]) by {
            assert(s.place_ok(r, k));
            assert(t.data[s.row(r)[k].0 as int].c == s.data[s.row(r)[k].0 as int].c);
        }
        if r == row {
            assert(t.row_cols(r) =~= s.row_cols(r).push(c.0 as int));
        } else {
            assert(t.row_cols(r) =~= s.row_cols(r));
        }
    }
    assert forall|x: Df| t.valid_df(x) implies #[trigger] t.built_before(
        x,
        c.0 as int,
        row + 1,
    ) by {
        if x.0 < n {
            assert(s.valid_df(x));
            assert(s.built_before(x, c.0 as int, row));
            assert(t.data[x.0 as int].c == s.data[x.0 as int].c);
        }
    }
    assert forall|d1: Df, d2: Df|
        t.valid_df(d1) && t.valid_df(d2) && d1.0 < d2.0 implies #[trigger] t.precedes(d1, d2) by {
        assert(s.valid_df(d1));
        assert(t.data[d1.0 as int].c == s.data[d1.0 as int].c);
        if d2.0 < n {
            assert(s.valid_df(d2));
            assert(t.data[d2.0 as int].c == s.data[d2.0 as int].c);
            assert(s.precedes(d1, d2));
        } else {
            assert(s.built_before(d1, c.0 as int, row));
        }
    }
}

/// A cell that is not set takes the construction one cell further as it
/// is.
proof fn lemma_entry_skipped<L, M: BitMatrix>(s: State<L>, input: &M, c: int, row: int)
    requires
        s.built_upto(input, c, row),
        0 <= c < input.spec_cols(),
        0 <= row < input.spec_rows(),
        !input.bit(c, row),
    ensures
        s.built_upto(input, c, row + 1),
{
    let nr = input.spec_rows() as int;
    assert forall|y: Cf| s.valid_cf(y) implies #[trigger] s.column_rows(y) == set_rows(
        input,
        y.0 as int,
        State::<L>::rows_built(y.0 as int, c, row + 1, nr),
    ) by {
        assert(s.column_rows(y) == set_rows(
            input,
            y.0 as int,
            State::<L>::rows_built(y.0 as int, c, row, nr),
        ));
    }
    assert forall|r: int| 0 <= r < nr implies #[trigger] s.row_cols(r) == set_cols(
        input,
        r,
        if r < row + 1 {
            c + 1
        } else {
            c
        },
    ) by {
        assert(s.row_cols(r) == set_cols(
            input,
            r,
            if r < row {
                c + 1
            } else {
                c
            },
        ));
    }
    assert forall|x: Df| s.valid_df(x) implies #[trigger] s.built_before(x, c, row + 1) by {
        assert(s.built_before(x, c, row));
    }
}

/// When a column is built to its last row, the construction stands at the
/// top of the next column.
proof fn lemma_column_built<L, M: BitMatrix>(s: State<L>, input: &M, c: int)
    requires
        s.built_upto(input, c, input.spec_rows() as int),
    ensures
        s.built_upto(input, c + 1, 0),
{
    let nr = input.spec_rows() as int;
    assert forall|y: Cf| s.valid_cf(y) implies #[trigger] s.column_rows(y) == set_rows(
        input,
        y.0 as int,
        State::<L>::rows_built(y.0 as int, c + 1, 0, nr),
    ) by {
        assert(s.column_rows(y) == set_rows(
            input,
            y.0 as int,
            State::<L>::rows_built(y.0 as int, c, nr, nr),
        ));
    }
    assert forall|r: int| 0 <= r < nr implies #[trigger] s.row_cols(r) == set_cols(
        input,
        r,
        if r < 0 {
            c + 1 + 1
        } else {
            c + 1
        },
    ) by {
        assert(s.row_cols(r) == set_cols(
            input,
            r,
            if r < nr {
                c + 1
            } else {
                c
            },
        ));
    }
    assert forall|x: Df| s.valid_df(x) implies #[trigger] s.built_before(x, c + 1, 0) by {
        assert(s.built_before(x, c, nr));
    }
}

/// When every column is built, the matrix is the sparse form of the input.
proof fn lemma_all_built<L, M: BitMatrix>(s: State<L>, input: &M)
    requires
        s.built_upto(input, input.spec_cols() as int, 0),
    ensures
        s.built_from(input),
{
    let nc = input.spec_cols() as int;
    let nr = input.spec_rows() as int;
    assert forall|y: Cf| s.valid_cf(y) implies #[trigger] s.column_rows(y) == set_rows(
        input,
        y.0 as int,
        nr,
    ) by {
        assert(s.column_rows(y) == set_rows(
            input,
            y.0 as int,
            State::<L>::rows_built(y.0 as int, nc, 0, nr),
        ));
    }
    assert forall|r: int| 0 <= r < nr implies #[trigger] s.row_cols(r) == set_cols(
        input,
        r,
        nc,
    ) by {
        assert(s.row_cols(r) == set_cols(
            input,
            r,
            if r < 0 {
                nc + 1
            } else {
                nc
            },
        ));
    }
    assert forall|d: Df| #[trigger] s.entry_live(d) implies s.row_live(
        s.row_of[d.0 as int] as int,
    ) by {
        let r = s.row_of[d.0 as int] as int;
        assert(s.entry_ok(d.0 as int));
        assert forall|k: int| 0 <= k < s.row(r).len() implies #[trigger] s.live_at(r, k) by {
            let x = s.row(r)[k];
            assert(s.place_ok(r, k));
            assert(s.linked(x));
            assert(s.entry_ok(x.0 as int));
            let y = s.col_of(x);
            assert(s.rings.header[y.0 as int] == y);
        }
    }
}

/// One more empty column keeps a matrix without entries in order, and the
/// labels of the other columns.
proof fn lemma_push_col<L>(s: State<L>, label: L, n: int, nr: int)
    requires
        s.fresh(n, nr),
        n < usize::MAX,
    ensures
        s.push_col(label).fresh(n + 1, nr),
        s.push_col(label).cols[n].n == label,
        forall|c: int| 0 <= c < n ==> (#[trigger] s.push_col(label).cols[c]).n == s.cols[c].n,
{
    reveal(State::push_col);
    let t = s.push_col(label);
    let c = Cf(n as usize);
    assert(t.rings.header =~= Seq::new((n + 1) as nat, |k: int| Cf(k as usize)));
    if n > 0 {
        assert(s.rings.header[n - 1] == Cf((n - 1) as usize));
    }
    assert forall|y: int| 0 <= y < n + 1 implies {
        &&& (#[trigger] t.cols[y]).c.0 == y
        &&& t.cols[y].s == 0
        &&& t.cols[y].u == DC::Cdc(Cf(y as usize))
        &&& t.cols[y].d == DC::Cdc(Cf(y as usize))
        &&& t.cols[y].l == cr_at(t.rings.header, y - 1)
        &&& t.cols[y].r == cr_at(t.rings.header, y + 1)
        &&& t.rings.column[y].len() == 0
    } by {
        if y < n {
            assert(s.cols[y].c.0 == y);
            if y + 1 < n {
                assert(s.rings.header[y + 1] == t.rings.header[y + 1]);
            }
            if y >= 1 {
                assert(s.rings.header[y - 1] == t.rings.header[y - 1]);
            }
        }
    }
    if n > 0 {
        assert(s.rings.header[0] == t.rings.header[0]);
    }
}

/// A matrix without entries is what the construction starts from.
proof fn lemma_fresh_built<L, M: BitMatrix>(s: State<L>, input: &M)
    requires
        s.fresh(input.spec_cols() as int, input.spec_rows() as int),
    ensures
        s.built_upto(input, 0, 0),
{
    let nc = input.spec_cols() as int;
    let nr = input.spec_rows() as int;
    let hdr = s.rings.header;
    assert forall|k: int| 0 <= k < hdr.len() implies #[trigger] s.header_link_ok(k) by {
        assert(s.cols[k].c.0 == k);
    }
    assert(hdr.no_duplicates());
    assert forall|c: Cf| s.valid_cf(c) implies #[trigger] s.column_ok(c) by {
        assert(s.cols[c.0 as int].c.0 == c.0);
    }
    assert forall|c: Cf| s.valid_cf(c) implies #[trigger] s.column_rows(c) == set_rows(
        input,
        c.0 as int,
        State::<L>::rows_built(c.0 as int, 0, 0, nr),
    ) by {
        assert(s.cols[c.0 as int].c.0 == c.0);
        assert(s.column_rows(c) =~= Seq::<int>::empty());
    }
    assert forall|r: int| 0 <= r < nr implies #[trigger] s.row_cols(r) == set_cols(
        input,
        r,
        if r < 0 {
            1
        } else {
            0
        },
    ) by {
        assert(s.row_cols(r) =~= Seq::<int>::empty());
    }
}

/// The table of the entries placed so far: the cell of each entry holds
/// that entry, and every other cell is empty.
pub open spec fn ptrs_ok<L>(s: State<L>, elems: Seq<Option<Df>>, w: int, nr: int) -> bool {
    &&& elems.len() == nr * w
    &&& forall|d: Df| #[trigger]
        s.valid_df(d) ==> elems[cell(w, s.col_of(d).0 as int, s.row_of[d.0 as int] as int)]
            == Some(d)
    &&& forall|c: int, r: int|
        0 <= c < w && 0 <= r < nr ==> (#[trigger] elems[cell(w, c, r)] matches Some(d)
            ==> s.valid_df(d) && s.col_of(d).0 == c && s.row_of[d.0 as int] == r)
}

/// The table holds no entry of row `row` outside the columns between those
/// of the first and the last entry of that row.
proof fn lemma_ptrs_row<L, M: BitMatrix>(
    s: State<L>,
    input: &M,
    elems: Seq<Option<Df>>,
    col: int,
    row: int,
    c: int,
)
    requires
        s.built_upto(input, col, row),
        ptrs_ok(s, elems, input.spec_cols() as int, input.spec_rows() as int),
        0 <= col < input.spec_cols(),
        0 <= row < input.spec_rows(),
        0 <= c < input.spec_cols(),
        elems[cell(input.spec_cols() as int, c, row)] is Some,
    ensures
        s.row(row).len() > 0,
        s.col_of(s.row(row).first()).0 <= c <= s.col_of(s.row(row).last()).0,
        c < col,
{
    let w = input.spec_cols() as int;
    let d = elems[cell(w, c, row)]->0;
    assert(s.valid_df(d));
    assert(s.entry_ok(d.0 as int));
    let rw = s.row(row);
    let p = s.rings.pos[d.0 as int];
    assert(rw[p] == d);
    lemma_set_cols(input, row, col);
    assert(s.row_cols(row) == set_cols(input, row, col));
    assert(s.row_cols(row)[p] == c);
    assert(s.row_cols(row)[0] == s.col_of(rw.first()).0);
    assert(s.row_cols(row)[rw.len() - 1] == s.col_of(rw.last()).0);
}

/// What the two scans of a row find while the construction stands at the
/// cell of column `col` and row `row`: leftwards the last entry of the
/// row, rightwards its first, and nothing where the row has no entry yet.
proof fn lemma_find<L, M: BitMatrix>(
    s: State<L>,
    input: &M,
    elems: Seq<Option<Df>>,
    col: int,
    row: int,
)
    requires
        s.built_upto(input, col, row),
        ptrs_ok(s, elems, input.spec_cols() as int, input.spec_rows() as int),
        0 <= col < input.spec_cols(),
        0 <= row < input.spec_rows(),
    ensures
        scan_from(elems, input.spec_cols() as int, col, row, -1, 1) == if s.row(row).len() == 0 {
            None
        } else {
            Some(s.row(row).last())
        },
        scan_from(elems, input.spec_cols() as int, col, row, 1, 1) == if s.row(row).len() == 0 {
            None
        } else {
            Some(s.row(row).first())
        },
{
    let w = input.spec_cols() as int;
    let rw = s.row(row);
    if rw.len() == 0 {
        assert forall|q: int| 1 <= q < w implies elems[cell(w, #[trigger] probe(col, q, -1, w), row)]
            is None by {
            if elems[cell(w, probe(col, q, -1, w), row)] is Some {
                lemma_ptrs_row(s, input, elems, col, row, probe(col, q, -1, w));
            }
        }
        lemma_scan_none(elems, w, col, row, -1, 1);
        assert forall|q: int| 1 <= q < w implies elems[cell(w, #[trigger] probe(col, q, 1, w), row)]
            is None by {
            if elems[cell(w, probe(col, q, 1, w), row)] is Some {
                lemma_ptrs_row(s, input, elems, col, row, probe(col, q, 1, w));
            }
        }
        lemma_scan_none(elems, w, col, row, 1, 1);
    } else {
        let last = rw.last();
        let first = rw.first();
        assert(s.place_ok(row, rw.len() - 1));
        assert(s.place_ok(row, 0));
        assert(s.valid_df(last) && s.valid_df(first));
        let lc = s.col_of(last).0 as int;
        let fc = s.col_of(first).0 as int;
        assert(elems[cell(w, lc, row)] == Some(last));
        assert(elems[cell(w, fc, row)] == Some(first));
        assert(s.entry_ok(last.0 as int));
        assert(s.entry_ok(first.0 as int));
        lemma_ptrs_row(s, input, elems, col, row, lc);
        lemma_ptrs_row(s, input, elems, col, row, fc);
        let kl = col - lc;
        assert(probe(col, kl, -1, w) == lc);
        assert forall|q: int| 1 <= q < kl implies elems[cell(
            w,
            #[trigger] probe(col, q, -1, w),
            row,
        )] is None by {
            if elems[cell(w, probe(col, q, -1, w), row)] is Some {
                lemma_ptrs_row(s, input, elems, col, row, probe(col, q, -1, w));
            }
        }
        lemma_scan_hit(elems, w, col, row, -1, 1, kl, last);
        let kr = w - col + fc;
        assert(probe(col, kr, 1, w) == fc);
        assert forall|q: int| 1 <= q < kr implies elems[cell(w, #[trigger] probe(col, q, 1, w), row)]
            is None by {
            if elems[cell(w, probe(col, q, 1, w), row)] is Some {
                lemma_ptrs_row(s, input, elems, col, row, probe(col, q, 1, w));
            }
        }
        lemma_scan_hit(elems, w, col, row, 1, 1, kr, first);
    }
}

/// Writing a new entry into its cell keeps the table in order.
proof fn lemma_ptrs_put<L, M: BitMatrix>(
    s: State<L>,
    t: State<L>,
    input: &M,
    elems: Seq<Option<Df>>,
    c: Cf,
    row: int,
)
    requires
        s.built_upto(input, c.0 as int, row),
        ptrs_ok(s, elems, input.spec_cols() as int, input.spec_rows() as int),
        s.valid_cf(c),
        0 <= row < input.spec_rows(),
        row <= usize::MAX,
        s.data.len() < usize::MAX,
        s.entry_added(t, c, row),
    ensures
        ptrs_ok(
            t,
            elems.update(
                cell(input.spec_cols() as int, c.0 as int, row),
                Some(Df(s.data.len() as usize)),
            ),
            input.spec_cols() as int,
            input.spec_rows() as int,
        ),
{
    let w = input.spec_cols() as int;
    let nr = input.spec_rows() as int;
    let n = s.data.len() as int;
    let d = Df(n as usize);
    let at = cell(w, c.0 as int, row);
    let e2 = elems.update(at, Some(d));
    lemma_cell_index(c.0 as int, row, w, nr);
    assert forall|x: Df| #[trigger] t.valid_df(x) implies e2[cell(
        w,
        t.col_of(x).0 as int,
        t.row_of[x.0 as int] as int,
    )] == Some(x) by {
        if x.0 < n {
            assert(s.valid_df(x));
            assert(t.data[x.0 as int].c == s.data[x.0 as int].c);
            assert(s.built_before(x, c.0 as int, row));
            assert(s.entry_ok(x.0 as int));
            lemma_cell_index(s.col_of(x).0 as int, s.row_of[x.0 as int] as int, w, nr);
        }
    }
    assert forall|c2: int, r2: int| 0 <= c2 < w && 0 <= r2 < nr implies (#[trigger] e2[cell(
        w,
        c2,
        r2,
    )] matches Some(x) ==> t.valid_df(x) && t.col_of(x).0 == c2 && t.row_of[x.0 as int]
        == r2) by {
        lemma_cell_index(c2, r2, w, nr);
        if cell(w, c2, r2) != at {
            if elems[cell(w, c2, r2)] is Some {
                let x = elems[cell(w, c2, r2)]->0;
                assert(s.valid_df(x));
                assert(t.data[x.0 as int].c == s.data[x.0 as int].c);
            }
        }
    }
}

impl<L> DlxMatrix<L> {
    /// Adds a column without entries, with the label `label`, at the end of
    /// the header ring.
    pub fn append_empty_col(&mut self, label: L) -> (c: Cf)
        requires
            exists|nr: int| old(self)@.fresh(old(self)@.cols.len() as int, nr),
        ensures
            c.0 == old(self)@.cols.len(),
            final(self)@ == old(self)@.push_col(label),
            final(self)@.row_labels == old(self)@.row_labels,
    {
        proof {
            reveal(State::push_col);
        }
        let idx = self.cols.len();
        let dc = DC::Cdc(Cf(idx));
        let root_l = self.root.l;
        let col_obj = ColumnObj { l: root_l, r: CR::Rootcr, u: dc, d: dc, c: Cf(idx), s: 0, n: label };
        self.cols.push(col_obj);
        let cr = CR::Ccr(Cf(idx));
        root_l.update_r(self, cr);
        CR::Rootcr.update_l(self, cr);
        self.rings = Ghost(
            Rings {
                header: self.rings@.header.push(Cf(idx)),
                column: self.rings@.column.push(Seq::empty()),
                ..self.rings@
            },
        );
        Cf(idx)
    }
}

impl<L: Clone> DlxMatrix<L> {
    /// Builds the sparse matrix of `input`: a header for each column, in
    /// the order of the columns, and an entry for each set cell, column
    /// after column and from the top down. The input must have a column:
    /// its rows are counted from its cells.
    pub fn new<M: BitMatrix + ColLabelled<L> + RowLabelled<L>>(input: &M) -> (m: DlxMatrix<L>)
        requires
            input.ok(),
            input.spec_cols() > 0,
            input.col_labels().len() == input.spec_cols(),
            input.row_labels().len() == input.spec_rows(),
        ensures
            m@.built_from(input),
            forall|c: int|
                0 <= c < input.spec_cols() ==> cloned(
                    input.col_labels()[c],
                    (#[trigger] m@.cols[c]).n,
                ),
            m@.row_labels.len() == input.spec_rows(),
            forall|r: int|
                0 <= r < input.spec_rows() ==> cloned(
                    input.row_labels()[r],
                    #[trigger] m@.row_labels[r],
                ),
    {
        let nc = input.num_cols();
        let nr = input.num_rows();
        let mut m = DlxMatrix {
            data: Vec::new(),
            cols: Vec::new(),
            root: RootObj { l: CR::Rootcr, r: CR::Rootcr },
            row_of: Vec::new(),
            row_labels: Vec::new(),
            rings: Ghost(
                Rings {
                    header: Seq::empty(),
                    column: Seq::empty(),
                    row: Seq::new(nr as nat, |r: int| Seq::<Df>::empty()),
                    pos: Seq::empty(),
                },
            ),
        };
        let mut r0: usize = 0;
        while r0 < nr
            invariant
                nr == input.spec_rows(),
                input.row_labels().len() == nr,
                0 <= r0 <= nr,
                m.row_labels@.len() == r0,
                m.data@.len() == 0,
                m.cols@.len() == 0,
                m.row_of@.len() == 0,
                m.root == (RootObj { l: CR::Rootcr, r: CR::Rootcr }),
                m.rings@ == (Rings {
                    header: Seq::empty(),
                    column: Seq::empty(),
                    row: Seq::new(nr as nat, |r: int| Seq::<Df>::empty()),
                    pos: Seq::empty(),
                }),
                forall|r: int|
                    0 <= r < r0 ==> cloned(input.row_labels()[r], #[trigger] m.row_labels@[r]),
            decreases nr - r0,
        {
            let l: L = input.row_label(r0).clone();
            m.row_labels.push(l);
            r0 = r0 + 1;
        }
        let ghost labels = m.row_labels@;
        let mut col_labels: Vec<L> = Vec::new();
        proof {
            assert(m@.rings.header =~= Seq::new(0nat, |k: int| Cf(k as usize)));
        }
        let mut i: usize = 0;
        while i < nc
            invariant
                input.ok(),
                nc == input.spec_cols(),
                nr == input.spec_rows(),
                input.col_labels().len() == nc,
                0 <= i <= nc,
                m@.row_labels == labels,
                m@.fresh(i as int, nr as int),
                col_labels.len() == i,
                forall|c: int| 0 <= c < i ==> cloned(input.col_labels()[c], (#[trigger] m@.cols[c]).n),
            decreases nc - i,
        {
            let l: L = input.col_label(i).clone();
            col_labels.push(l.clone());
            proof {
                lemma_push_col(m@, l, i as int, nr as int);
            }
            m.append_empty_col(l);
            i = i + 1;
        }
        let mut init_ptrs: Vec<Option<Df>> = Vec::new();
        let mut r0: usize = 0;
        while r0 < nr
            invariant
                0 <= r0 <= nr,
                init_ptrs.len() == r0 * nc,
                forall|q: int| 0 <= q < init_ptrs.len() ==> init_ptrs@[q] is None,
            decreases nr - r0,
        {
            let mut c0: usize = 0;
            while c0 < nc
                invariant
                    0 <= r0 < nr,
                    0 <= c0 <= nc,
                    init_ptrs.len() == r0 * nc + c0,
                    forall|q: int| 0 <= q < init_ptrs.len() ==> init_ptrs@[q] is None,
                decreases nc - c0,
            {
                init_ptrs.push(None);
                c0 = c0 + 1;
            }
            r0 = r0 + 1;
            assert(r0 * nc == (r0 - 1) * nc + nc) by (nonlinear_arith);
        }
        let mut ptrs: Matrix<L, Option<Df>> = Matrix {
            col_indent: String::new(),
            cols: col_labels,
            rows: Vec::new(),
            elems: init_ptrs,
        };
        proof {
            lemma_fresh_built(m@, input);
            assert forall|c: int, r: int| 0 <= c < nc && 0 <= r < nr implies (
            #[trigger] ptrs.elems@[cell(nc as int, c, r)]) is None by {
                lemma_cell_index(c, r, nc as int, nr as int);
            }
            assert(ptrs_ok(m@, ptrs.elems@, nc as int, nr as int));
        }
        let mut col: usize = 0;
        while col < nc
            invariant
                input.ok(),
                nc == input.spec_cols(),
                nr == input.spec_rows(),
                nc > 0,
                0 <= col <= nc,
                m@.row_labels == labels,
                m@.built_upto(input, col as int, 0),
                ptrs.cols.len() == nc,
                ptrs_ok(m@, ptrs.elems@, nc as int, nr as int),
                forall|c: int|
                    0 <= c < nc ==> cloned(input.col_labels()[c], (#[trigger] m@.cols[c]).n),
            decreases nc - col,
        {
            let cf = Cf(col);
            let hdr = DC::Cdc(cf);
            let mut last_in_col: DC = hdr;
            proof {
                assert(m@.column_rows(cf) == set_rows(input, col as int, 0));
            }
            let mut row: usize = 0;
            while row < nr
                invariant
                    input.ok(),
                    nc == input.spec_cols(),
                    nr == input.spec_rows(),
                    nc > 0,
                    0 <= col < nc,
                    0 <= row <= nr,
                    cf == Cf(col),
                    hdr == DC::Cdc(cf),
                    m@.row_labels == labels,
                    m@.built_upto(input, col as int, row as int),
                    ptrs.cols.len() == nc,
                    ptrs_ok(m@, ptrs.elems@, nc as int, nr as int),
                    last_in_col == dc_at(cf, m@.column(cf), m@.column(cf).len() - 1),
                    forall|c: int|
                        0 <= c < nc ==> cloned(input.col_labels()[c], (#[trigger] m@.cols[c]).n),
                decreases nr - row,
            {
                if input.at(col, row) {
                    let ghost s = m@;
                    proof {
                        lemma_cell_index(col as int, row as int, nc as int, nr as int);
                        lemma_find(s, input, ptrs.elems@, col as int, row as int);
                        lemma_set_rows(input, col as int, row as int);
                        assert(s.column_rows(cf) == set_rows(input, col as int, row as int));
                        assert(s.column_ok(cf));
                        if s.column(cf).len() > 0 {
                            assert(s.col_link_ok(cf, s.column(cf).len() - 1));
                        }
                        if s.row(row as int).len() > 0 {
                            assert(s.place_ok(row as int, 0));
                            assert(s.place_ok(row as int, s.row(row as int).len() - 1));
                        }
                    }
                    let l = find(&ptrs, col, row, -1);
                    let r = find(&ptrs, col, row, 1);
                    let df = Df(m.data.len());
                    let l = match l {
                        Some(x) => x,
                        None => df,
                    };
                    let r = match r {
                        Some(x) => x,
                        None => df,
                    };
                    let d = DataObj { l: l, r: r, u: last_in_col, d: hdr, c: cf };
                    m.data.push(d);
                    m.row_of.push(row);
                    l.update_r(&mut m, df);
                    r.update_l(&mut m, df);
                    last_in_col.update_d(&mut m, DC::Ddc(df));
                    hdr.update_u(&mut m, DC::Ddc(df));
                    let cnt = cf.S(&mut m);
                    *cnt = *cnt + 1;
                    m.rings = Ghost(
                        Rings {
                            header: s.rings.header,
                            column: s.rings.column.update(col as int, s.column(cf).push(df)),
                            row: s.rings.row.update(row as int, s.row(row as int).push(df)),
                            pos: s.rings.pos.push(s.row(row as int).len() as int),
                        },
                    );
                    proof {
                        reveal(State::with_entry);
                        assert(m.data.len() == m.data@.len());
                        assert(s.data.len() < usize::MAX);
                        assert(m@ == s.with_entry(cf, row as int));
                        lemma_with_entry_fields(s, cf, row as int);
                        lemma_entry_added(s, m@, input, cf, row as int);
                        lemma_ptrs_put(s, m@, input, ptrs.elems@, cf, row as int);
                        assert forall|c: int| 0 <= c < nc implies cloned(
                            input.col_labels()[c],
                            (#[trigger] m@.cols[c]).n,
                        ) by {
                            let yc = Cf(c as usize);
                            assert(s.valid_cf(yc));
                            assert(m@.cols[yc.0 as int].n == s.cols[yc.0 as int].n);
                        }
                    }
                    ptrs.put(col, row, Some(df));
                    last_in_col = DC::Ddc(df);
                } else {
                    proof {
                        lemma_entry_skipped(m@, input, col as int, row as int);
                    }
                }
                row = row + 1;
            }
            proof {
                lemma_column_built(m@, input, col as int);
            }
            col = col + 1;
        }
        proof {
            lemma_all_built(m@, input);
        }
        m
    }
}

/// Two sparse matrices built from the same dense matrix have the same
/// rings: the same columns in the header ring in the same order, in each
/// column the entries of the same rows in the same order, and in each row
/// the entries of the same columns in the same order.
pub proof fn lemma_same_build<L, M: BitMatrix>(a: State<L>, b: State<L>, input: &M)
    requires
        a.built_from(input),
        b.built_from(input),
    ensures
        a.rings.header == b.rings.header,
        forall|c: Cf| a.valid_cf(c) ==> #[trigger] a.column_rows(c) == b.column_rows(c),
        forall|r: int| 0 <= r < a.rings.row.len() ==> #[trigger] a.row_cols(r) == b.row_cols(r),
{
    assert forall|c: Cf| a.valid_cf(c) implies #[trigger] a.column_rows(c) == b.column_rows(
        c,
    ) by {
        assert(b.valid_cf(c));
        assert(a.column_rows(c) == set_rows(input, c.0 as int, input.spec_rows() as int));
        assert(b.column_rows(c) == set_rows(input, c.0 as int, input.spec_rows() as int));
    }
    assert forall|r: int| 0 <= r < a.rings.row.len() implies #[trigger] a.row_cols(r)
        == b.row_cols(r) by {
        assert(a.row_cols(r) == set_cols(input, r, input.spec_cols() as int));
        assert(b.row_cols(r) == set_cols(input, r, input.spec_cols() as int));
    }
}

} // verus!
