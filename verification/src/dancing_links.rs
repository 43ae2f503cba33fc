//! The sparse toroidal matrix of Knuth's Dancing Links: two flat arrays of
//! nodes joined into circular doubly-linked rings by typed index references.

use vstd::prelude::*;

verus! {

/// A reference to an entry node owned by the matrix.
#[derive(Clone, Copy, PartialEq, Eq, Structural, Debug)]
pub struct Df(pub usize);

/// A reference to a column header owned by the matrix.
#[derive(Clone, Copy, PartialEq, Eq, Structural, Debug)]
pub struct Cf(pub usize);

/// A vertical reference: an entry, or the header of the column.
#[derive(Clone, Copy, PartialEq, Eq, Structural, Debug)]
pub enum DC {
    Ddc(Df),
    Cdc(Cf),
}

/// A reference among the headers: a column header, or the root sentinel.
#[derive(Clone, Copy, PartialEq, Eq, Structural, Debug)]
pub enum CR {
    Ccr(Cf),
    Rootcr,
}

/// One entry of the matrix: its neighbours in its row and in its column, and
/// the column that owns it.
#[derive(Clone, Copy, Debug)]
pub struct DataObj {
    pub l: Df,
    pub r: Df,
    pub u: DC,
    pub d: DC,
    pub c: Cf,
}

/// One column header: its neighbours among the headers, the two ends of its
/// vertical ring, its active count `s` and its label `n`.
#[derive(Debug)]
pub struct ColumnObj<L> {
    pub l: CR,
    pub r: CR,
    pub u: DC,
    pub d: DC,
    pub c: Cf,
    pub s: usize,
    pub n: L,
}

/// The root sentinel of the header ring.
#[derive(Clone, Copy, Debug)]
pub struct RootObj {
    pub l: CR,
    pub r: CR,
}

/// The rings that the links spell out, as sequences.
#[verifier::ext_equal]
pub struct Rings {
    /// The headers linked into the header ring, from the root rightwards.
    pub header: Seq<Cf>,
    /// For each column, the entries linked into its vertical ring, from the
    /// header downwards.
    pub column: Seq<Seq<Df>>,
    /// For each row, its entries from left to right.
    pub row: Seq<Seq<Df>>,
    /// For each entry, its position in its row.
    pub pos: Seq<int>,
}

/// The mathematical model of a matrix: every link field, every count, and
/// the rings they form.
#[verifier::ext_equal]
pub struct State<L> {
    pub data: Seq<DataObj>,
    pub cols: Seq<ColumnObj<L>>,
    pub root: RootObj,
    pub row_of: Seq<usize>,
    pub row_labels: Seq<L>,
    pub rings: Rings,
}

/// The sparse toroidal matrix.
pub struct DlxMatrix<L> {
    pub data: Vec<DataObj>,
    pub cols: Vec<ColumnObj<L>>,
    pub root: RootObj,
    /// For each entry, the index of its row.
    pub row_of: Vec<usize>,
    /// The labels of the rows.
    pub row_labels: Vec<L>,
    pub rings: Ghost<Rings>,
}

/// The search engine: the matrix it works on, the stack of the entries
/// chosen so far, and the solutions found.
pub struct Dlx<L> {
    pub m: DlxMatrix<L>,
    pub soln: Vec<Df>,
    pub solutions: Vec<Vec<Df>>,
}

impl<L> View for DlxMatrix<L> {
    type V = State<L>;

    open spec fn view(&self) -> State<L> {
        State {
            data: self.data@,
            cols: self.cols@,
            root: self.root,
            row_of: self.row_of@,
            row_labels: self.row_labels@,
            rings: self.rings@,
        }
    }
}

/// The vertical reference at position `k` of the ring of column `c` whose
/// entries are `lst`: the header stands before the first and after the last.
pub open spec fn dc_at(c: Cf, lst: Seq<Df>, k: int) -> DC {
    if 0 <= k < lst.len() {
        DC::Ddc(lst[k])
    } else {
        DC::Cdc(c)
    }
}

/// The header reference at position `k` of the header ring `hdr`: the root
/// stands before the first and after the last.
pub open spec fn cr_at(hdr: Seq<Cf>, k: int) -> CR {
    if 0 <= k < hdr.len() {
        CR::Ccr(hdr[k])
    } else {
        CR::Rootcr
    }
}

/// The position after `p` in a ring of `len` places.
pub open spec fn next_pos(p: int, len: int) -> int {
    if p + 1 < len {
        p + 1
    } else {
        0
    }
}

/// The position before `p` in a ring of `len` places.
pub open spec fn prev_pos(p: int, len: int) -> int {
    if p == 0 {
        len - 1
    } else {
        p - 1
    }
}

impl<L> State<L> {
    pub open spec fn valid_df(self, d: Df) -> bool {
        d.0 < self.data.len()
    }

    pub open spec fn valid_cf(self, c: Cf) -> bool {
        c.0 < self.cols.len()
    }

    pub open spec fn valid_dc(self, x: DC) -> bool {
        match x {
            DC::Ddc(d) => self.valid_df(d),
            DC::Cdc(c) => self.valid_cf(c),
        }
    }

    pub open spec fn valid_cr(self, x: CR) -> bool {
        match x {
            CR::Ccr(c) => self.valid_cf(c),
            CR::Rootcr => true,
        }
    }

    /// The column that owns entry `d`.
    pub open spec fn col_of(self, d: Df) -> Cf {
        self.data[d.0 as int].c
    }

    /// The entries of row `r`, from left to right.
    pub open spec fn row(self, r: int) -> Seq<Df> {
        self.rings.row[r]
    }

    /// The entries linked into the vertical ring of column `c`, from the
    /// header downwards.
    pub open spec fn column(self, c: Cf) -> Seq<Df> {
        self.rings.column[c.0 as int]
    }

    /// Column `c` is linked into the header ring.
    pub open spec fn active(self, c: Cf) -> bool {
        self.rings.header.contains(c)
    }

    /// Entry `d` is linked into the vertical ring of its column.
    pub open spec fn linked(self, d: Df) -> bool {
        self.column(self.col_of(d)).contains(d)
    }

    /// Entry `d` names a column and a place in a row, and its `l` and `r`
    /// links name its neighbours in that row.
    pub open spec fn entry_ok(self, d: int) -> bool {
        let row = self.rings.row[self.row_of[d] as int];
        let p = self.rings.pos[d];
        &&& self.data[d].c.0 < self.cols.len()
        &&& self.row_of[d] < self.rings.row.len()
        &&& 0 <= p < row.len()
        &&& row[p].0 == d
        &&& self.data[d].r == row[next_pos(p, row.len() as int)]
        &&& self.data[d].l == row[prev_pos(p, row.len() as int)]
    }

    /// Place `k` of row `r` holds an entry that knows its row and its place.
    pub open spec fn place_ok(self, r: int, k: int) -> bool {
        let d = self.rings.row[r][k];
        &&& d.0 < self.data.len()
        &&& self.row_of[d.0 as int] == r
        &&& self.rings.pos[d.0 as int] == k
    }

    /// The entries at two places of row `r` lie in different columns.
    pub open spec fn apart(self, r: int, k1: int, k2: int) -> bool {
        self.col_of(self.rings.row[r][k1]) != self.col_of(self.rings.row[r][k2])
    }

    /// Every array has the length that goes with the others, each header
    /// names itself, and every entry is in order.
    pub open spec fn shape_ok(self) -> bool {
        &&& self.data.len() <= usize::MAX
        &&& self.cols.len() <= usize::MAX
        &&& self.row_of.len() == self.data.len()
        &&& self.rings.pos.len() == self.data.len()
        &&& self.rings.column.len() == self.cols.len()
        &&& forall|c: int| 0 <= c < self.cols.len() ==> (#[trigger] self.cols[c]).c.0 == c
        &&& forall|d: int| 0 <= d < self.data.len() ==> #[trigger] self.entry_ok(d)
    }

    /// The row rings: every place of every row is in order, and the entries
    /// of a row lie in distinct columns.
    pub open spec fn rows_ok(self) -> bool {
        &&& forall|r: int, k: int|
            0 <= r < self.rings.row.len() && 0 <= k < self.rings.row[r].len()
                ==> #[trigger] self.place_ok(r, k)
        &&& forall|r: int, k1: int, k2: int|
            0 <= r < self.rings.row.len() && 0 <= k1 < k2 < self.rings.row[r].len()
                ==> #[trigger] self.apart(r, k1, k2)
    }

    /// The header at place `k` of the header ring is a column whose `l` and
    /// `r` links name its neighbours.
    pub open spec fn header_link_ok(self, k: int) -> bool {
        let hdr = self.rings.header;
        &&& hdr[k].0 < self.cols.len()
        &&& self.cols[hdr[k].0 as int].r == cr_at(hdr, k + 1)
        &&& self.cols[hdr[k].0 as int].l == cr_at(hdr, k - 1)
    }

    /// The header ring: the linked headers are distinct columns, and the `l`
    /// and `r` links of the root and of each linked header name its
    /// neighbours.
    pub open spec fn header_ok(self) -> bool {
        let hdr = self.rings.header;
        &&& hdr.no_duplicates()
        &&& self.root.r == cr_at(hdr, 0)
        &&& self.root.l == cr_at(hdr, hdr.len() - 1)
        &&& forall|k: int| 0 <= k < hdr.len() ==> #[trigger] self.header_link_ok(k)
    }

    /// The entry at place `k` of the ring of column `c` belongs to that
    /// column, and its `u` and `d` links name its neighbours.
    pub open spec fn col_link_ok(self, c: Cf, k: int) -> bool {
        let lst = self.column(c);
        &&& lst[k].0 < self.data.len()
        &&& self.col_of(lst[k]) == c
        &&& self.data[lst[k].0 as int].d == dc_at(c, lst, k + 1)
        &&& self.data[lst[k].0 as int].u == dc_at(c, lst, k - 1)
    }

    /// The vertical ring of column `c`: its linked entries are distinct
    /// entries of that column, the `u` and `d` links of the header and of
    /// each linked entry name its neighbours, and the active count is the
    /// number of linked entries.
    pub open spec fn column_ok(self, c: Cf) -> bool {
        let lst = self.column(c);
        let hd = self.cols[c.0 as int];
        &&& hd.s == lst.len()
        &&& hd.d == dc_at(c, lst, 0)
        &&& hd.u == dc_at(c, lst, lst.len() - 1)
        &&& lst.no_duplicates()
        &&& forall|k: int| 0 <= k < lst.len() ==> #[trigger] self.col_link_ok(c, k)
    }

    pub open spec fn columns_ok(self) -> bool {
        forall|c: Cf| self.valid_cf(c) ==> #[trigger] self.column_ok(c)
    }

    /// Every ring is circular and every count is right. This holds between
    /// any two steps of `cover` and `uncover`.
    pub open spec fn rings_ok(self) -> bool {
        &&& self.shape_ok()
        &&& self.rows_ok()
        &&& self.header_ok()
        &&& self.columns_ok()
    }

    /// Entry `d` is linked into its column, and its column into the header
    /// ring.
    pub open spec fn entry_live(self, d: Df) -> bool {
        &&& self.valid_df(d)
        &&& self.active(self.col_of(d))
        &&& self.linked(d)
    }

    /// The entry at place `k` of row `r` is live.
    pub open spec fn live_at(self, r: int, k: int) -> bool {
        self.entry_live(self.row(r)[k])
    }

    /// Every entry of row `r` is live: the row is still a candidate.
    pub open spec fn row_live(self, r: int) -> bool {
        forall|k: int| 0 <= k < self.row(r).len() ==> #[trigger] self.live_at(r, k)
    }

    /// The linked entries of the linked columns belong to live rows: no row
    /// is half removed.
    pub open spec fn reduced(self) -> bool {
        forall|d: Df| #[trigger] self.entry_live(d) ==> self.row_live(self.row_of[d.0 as int] as int)
    }

    /// The invariant of the matrix whenever no `cover` or `uncover` is in
    /// flight.
    pub open spec fn wf(self) -> bool {
        &&& self.rings_ok()
        &&& self.reduced()
    }

    /// The header ring holds only the root: every column is covered.
    pub open spec fn is_covered(self) -> bool {
        self.rings.header.len() == 0
    }

    pub open spec fn with_data(self, d: Df, obj: DataObj) -> State<L> {
        State { data: self.data.update(d.0 as int, obj), ..self }
    }

    pub open spec fn with_col(self, c: Cf, obj: ColumnObj<L>) -> State<L> {
        State { cols: self.cols.update(c.0 as int, obj), ..self }
    }

    /// The state with the `l` link of `x` set to `v`.
    pub open spec fn set_cr_l(self, x: CR, v: CR) -> State<L> {
        match x {
            CR::Rootcr => State { root: RootObj { l: v, ..self.root }, ..self },
            CR::Ccr(c) => self.with_col(c, ColumnObj { l: v, ..self.cols[c.0 as int] }),
        }
    }

    /// The state with the `r` link of `x` set to `v`.
    pub open spec fn set_cr_r(self, x: CR, v: CR) -> State<L> {
        match x {
            CR::Rootcr => State { root: RootObj { r: v, ..self.root }, ..self },
            CR::Ccr(c) => self.with_col(c, ColumnObj { r: v, ..self.cols[c.0 as int] }),
        }
    }

    /// The state with the `u` link of `x` set to `v`.
    pub open spec fn set_dc_u(self, x: DC, v: DC) -> State<L> {
        match x {
            DC::Ddc(d) => self.with_data(d, DataObj { u: v, ..self.data[d.0 as int] }),
            DC::Cdc(c) => self.with_col(c, ColumnObj { u: v, ..self.cols[c.0 as int] }),
        }
    }

    /// The state with the `d` link of `x` set to `v`.
    pub open spec fn set_dc_d(self, x: DC, v: DC) -> State<L> {
        match x {
            DC::Ddc(d) => self.with_data(d, DataObj { d: v, ..self.data[d.0 as int] }),
            DC::Cdc(c) => self.with_col(c, ColumnObj { d: v, ..self.cols[c.0 as int] }),
        }
    }

    /// The state with the `l` link of entry `d` set to `v`.
    pub open spec fn set_df_l(self, d: Df, v: Df) -> State<L> {
        self.with_data(d, DataObj { l: v, ..self.data[d.0 as int] })
    }

    /// The state with the `r` link of entry `d` set to `v`.
    pub open spec fn set_df_r(self, d: Df, v: Df) -> State<L> {
        self.with_data(d, DataObj { r: v, ..self.data[d.0 as int] })
    }

    /// The state with the active count of column `c` set to `v`.
    pub open spec fn set_s(self, c: Cf, v: usize) -> State<L> {
        self.with_col(c, ColumnObj { s: v, ..self.cols[c.0 as int] })
    }
}

impl Df {
    /// The left neighbour of this entry in its row.
    pub fn L<LBL>(&self, m: &DlxMatrix<LBL>) -> (x: Df)
        requires
            m@.valid_df(*self),
        ensures
            x == m@.data[self.0 as int].l,
    {
        m.data[self.0].l
    }

    /// The right neighbour of this entry in its row.
    pub fn R<LBL>(&self, m: &DlxMatrix<LBL>) -> (x: Df)
        requires
            m@.valid_df(*self),
        ensures
            x == m@.data[self.0 as int].r,
    {
        m.data[self.0].r
    }

    /// The neighbour below this entry in its column.
    pub fn D<LBL>(&self, m: &DlxMatrix<LBL>) -> (x: DC)
        requires
            m@.valid_df(*self),
        ensures
            x == m@.data[self.0 as int].d,
    {
        m.data[self.0].d
    }

    /// The neighbour above this entry in its column.
    pub fn U<LBL>(&self, m: &DlxMatrix<LBL>) -> (x: DC)
        requires
            m@.valid_df(*self),
        ensures
            x == m@.data[self.0 as int].u,
    {
        m.data[self.0].u
    }

    /// The column that owns this entry.
    pub fn C<LBL>(&self, m: &DlxMatrix<LBL>) -> (x: Cf)
        requires
            m@.valid_df(*self),
        ensures
            x == m@.col_of(*self),
    {
        m.data[self.0].c
    }

    /// The index of the row of this entry.
    pub fn row<LBL>(&self, m: &DlxMatrix<LBL>) -> (r: usize)
        requires
            m@.valid_df(*self),
            m@.row_of.len() == m@.data.len(),
        ensures
            r == m@.row_of[self.0 as int],
    {
        m.row_of[self.0]
    }

    /// The label of the row of this entry.
    pub fn row_label<'a, LBL>(&self, m: &'a DlxMatrix<LBL>) -> (l: &'a LBL)
        requires
            m@.valid_df(*self),
            m@.row_of.len() == m@.data.len(),
            m@.row_of[self.0 as int] < m@.row_labels.len(),
        ensures
            *l == m@.row_labels[m@.row_of[self.0 as int] as int],
    {
        &m.row_labels[m.row_of[self.0]]
    }

    pub fn update_l<LBL>(&self, m: &mut DlxMatrix<LBL>, new_l: Df)
        requires
            old(m)@.valid_df(*self),
        ensures
            final(m)@ == old(m)@.set_df_l(*self, new_l),
    {
        m.data[self.0].l = new_l;
    }

    pub fn update_r<LBL>(&self, m: &mut DlxMatrix<LBL>, new_r: Df)
        requires
            old(m)@.valid_df(*self),
        ensures
            final(m)@ == old(m)@.set_df_r(*self, new_r),
    {
        m.data[self.0].r = new_r;
    }

    pub fn update_u<LBL>(&self, m: &mut DlxMatrix<LBL>, new_u: DC)
        requires
            old(m)@.valid_df(*self),
        ensures
            final(m)@ == old(m)@.set_dc_u(DC::Ddc(*self), new_u),
    {
        m.data[self.0].u = new_u;
    }

    pub fn update_d<LBL>(&self, m: &mut DlxMatrix<LBL>, new_d: DC)
        requires
            old(m)@.valid_df(*self),
        ensures
            final(m)@ == old(m)@.set_dc_d(DC::Ddc(*self), new_d),
    {
        m.data[self.0].d = new_d;
    }
}

impl Cf {
    /// The left neighbour of this header in the header ring.
    pub fn L<LBL>(&self, m: &DlxMatrix<LBL>) -> (x: CR)
        requires
            m@.valid_cf(*self),
        ensures
            x == m@.cols[self.0 as int].l,
    {
        m.cols[self.0].l
    }

    /// The right neighbour of this header in the header ring.
    pub fn R<LBL>(&self, m: &DlxMatrix<LBL>) -> (x: CR)
        requires
            m@.valid_cf(*self),
        ensures
            x == m@.cols[self.0 as int].r,
    {
        m.cols[self.0].r
    }

    /// The first entry of the vertical ring of this column, or the header
    /// itself where the ring is empty.
    pub fn D<LBL>(&self, m: &DlxMatrix<LBL>) -> (x: DC)
        requires
            m@.valid_cf(*self),
        ensures
            x == m@.cols[self.0 as int].d,
    {
        m.cols[self.0].d
    }

    /// The last entry of the vertical ring of this column, or the header
    /// itself where the ring is empty.
    pub fn U<LBL>(&self, m: &DlxMatrix<LBL>) -> (x: DC)
        requires
            m@.valid_cf(*self),
        ensures
            x == m@.cols[self.0 as int].u,
    {
        m.cols[self.0].u
    }

    /// The active count of this column, to read and to write.
    pub fn S<'a, LBL>(&self, m: &'a mut DlxMatrix<LBL>) -> (s: &'a mut usize)
        requires
            old(m)@.valid_cf(*self),
        ensures
            *s == old(m)@.cols[self.0 as int].s,
            final(m)@ == old(m)@.set_s(*self, *final(s)),
    {
        &mut m.cols[self.0].s
    }

    pub fn update_l<LBL>(&self, m: &mut DlxMatrix<LBL>, new_l: CR)
        requires
            old(m)@.valid_cf(*self),
        ensures
            final(m)@ == old(m)@.set_cr_l(CR::Ccr(*self), new_l),
    {
        m.cols[self.0].l = new_l;
    }

    pub fn update_r<LBL>(&self, m: &mut DlxMatrix<LBL>, new_r: CR)
        requires
            old(m)@.valid_cf(*self),
        ensures
            final(m)@ == old(m)@.set_cr_r(CR::Ccr(*self), new_r),
    {
        m.cols[self.0].r = new_r;
    }
}

impl CR {
    pub fn update_l<LBL>(&self, m: &mut DlxMatrix<LBL>, new_l: CR)
        requires
            old(m)@.valid_cr(*self),
        ensures
            final(m)@ == old(m)@.set_cr_l(*self, new_l),
    {
        match self {
            CR::Rootcr => {
                m.root.l = new_l;
            },
            CR::Ccr(Cf(i)) => {
                m.cols[*i].l = new_l;
            },
        }
    }

    pub fn update_r<LBL>(&self, m: &mut DlxMatrix<LBL>, new_r: CR)
        requires
            old(m)@.valid_cr(*self),
        ensures
            final(m)@ == old(m)@.set_cr_r(*self, new_r),
    {
        match self {
            CR::Rootcr => {
                m.root.r = new_r;
            },
            CR::Ccr(Cf(i)) => {
                m.cols[*i].r = new_r;
            },
        }
    }

    /// The root has no vertical ring: only a header takes a new `u` link.
    pub fn update_u<LBL>(&self, m: &mut DlxMatrix<LBL>, new_u: DC)
        requires
            *self matches CR::Ccr(c) && old(m)@.valid_cf(c),
        ensures
            *self matches CR::Ccr(c) && final(m)@ == old(m)@.set_dc_u(DC::Cdc(c), new_u),
    {
        match self {
            CR::Rootcr => {},
            CR::Ccr(Cf(i)) => {
                m.cols[*i].u = new_u;
            },
        }
    }

    /// The root has no vertical ring: only a header takes a new `d` link.
    pub fn update_d<LBL>(&self, m: &mut DlxMatrix<LBL>, new_d: DC)
        requires
            *self matches CR::Ccr(c) && old(m)@.valid_cf(c),
        ensures
            *self matches CR::Ccr(c) && final(m)@ == old(m)@.set_dc_d(DC::Cdc(c), new_d),
    {
        match self {
            CR::Rootcr => {},
            CR::Ccr(Cf(i)) => {
                m.cols[*i].d = new_d;
            },
        }
    }
}

impl DC {
    pub fn update_u<LBL>(&self, m: &mut DlxMatrix<LBL>, new_u: DC)
        requires
            old(m)@.valid_dc(*self),
        ensures
            final(m)@ == old(m)@.set_dc_u(*self, new_u),
    {
        match self {
            DC::Ddc(Df(i)) => {
                m.data[*i].u = new_u;
            },
            DC::Cdc(Cf(i)) => {
                m.cols[*i].u = new_u;
            },
        }
    }

    pub fn update_d<LBL>(&self, m: &mut DlxMatrix<LBL>, new_d: DC)
        requires
            old(m)@.valid_dc(*self),
        ensures
            final(m)@ == old(m)@.set_dc_d(*self, new_d),
    {
        match self {
            DC::Ddc(Df(i)) => {
                m.data[*i].d = new_d;
            },
            DC::Cdc(Cf(i)) => {
                m.cols[*i].d = new_d;
            },
        }
    }
}

} // verus!
