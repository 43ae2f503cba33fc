//! Algorithm X on the sparse matrix: the depth-first search for all exact
//! covers, the two ways to choose the next column, and the proof that the
//! search finds every exact cover whichever way the columns are chosen.

use crate::cover::{lemma_active_at, lemma_cover, wrap};
use crate::dancing_links::{cr_at, dc_at, prev_pos, Cf, Df, Dlx, DlxMatrix, State, CR, DC};
use crate::links::lemma_member;
use vstd::prelude::*;

verus! {

impl<L> State<L> {
    /// The row of entry `i`, from `i` rightwards round the row.
    pub open spec fn row_from(self, i: Df) -> Seq<Df> {
        let row = self.row(self.row_of[i.0 as int] as int);
        let p = self.rings.pos[i.0 as int];
        Seq::new(row.len(), |t: int| row[wrap(p + t, row.len() as int)])
    }

    /// The column of the entry at place `k` of the row of `i`, counted from
    /// `i` rightwards.
    pub open spec fn col_from(self, i: Df, k: int) -> Cf {
        self.col_of(self.row_from(i)[k])
    }

    /// The state after covering, one after another, the columns of the
    /// first `m` entries of the row of `i`, counted from `i` rightwards.
    pub open spec fn cover_row_upto(self, i: Df, m: int) -> State<L>
        decreases m,
    {
        if m <= 0 {
            self
        } else {
            self.cover_row_upto(i, m - 1).cover(self.col_from(i, m - 1))
        }
    }

    /// The state after choosing the row of entry `i`: every column of that
    /// row is covered.
    pub open spec fn choose_row(self, i: Df) -> State<L> {
        self.cover_row_upto(i, self.row(self.row_of[i.0 as int] as int).len() as int)
    }

    /// Column `y` holds one of the first `m` entries of the row of `i`.
    pub open spec fn hits_upto(self, i: Df, y: Cf, m: int) -> bool {
        exists|k: int| 0 <= k < m && #[trigger] self.col_from(i, k) == y
    }

    /// Row `r` has no entry in the column of any of the first `m` entries of
    /// the row of `i`.
    pub open spec fn clear_upto(self, i: Df, r: int, m: int) -> bool {
        forall|k: int| 0 <= k < m ==> !self.row_hits(r, #[trigger] self.col_from(i, k))
    }

    /// State `t` has the entries, rows and columns of this one, whatever
    /// their links are.
    pub open spec fn same_matrix(self, t: State<L>) -> bool {
        &&& t.data.len() == self.data.len()
        &&& t.cols.len() == self.cols.len()
        &&& t.row_of == self.row_of
        &&& t.rings.row == self.rings.row
        &&& t.rings.pos == self.rings.pos
        &&& forall|x: Df| self.valid_df(x) ==> #[trigger] t.col_of(x) == self.col_of(x)
        &&& forall|x: Df|
            self.valid_df(x) ==> (#[trigger] t.data[x.0 as int]).l == self.data[x.0 as int].l
                && t.data[x.0 as int].r == self.data[x.0 as int].r
    }
}

/// The entries of a row, counted from one of them: each is an entry of that
/// row, and the first is the one counted from.
pub proof fn lemma_row_from<L>(s: State<L>, i: Df)
    requires
        s.shape_ok(),
        s.rows_ok(),
        s.valid_df(i),
    ensures
        s.row_from(i).len() == s.row(s.row_of[i.0 as int] as int).len(),
        s.row_from(i).len() >= 1,
        s.row_from(i)[0] == i,
        forall|k: int|
            0 <= k < s.row_from(i).len() ==> {
                let x = #[trigger] s.row_from(i)[k];
                &&& s.valid_df(x)
                &&& s.row_of[x.0 as int] == s.row_of[i.0 as int]
                &&& s.rings.pos[x.0 as int] == wrap(
                    s.rings.pos[i.0 as int] + k,
                    s.row_from(i).len() as int,
                )
                &&& x == s.row(s.row_of[i.0 as int] as int)[s.rings.pos[x.0 as int]]
            },
        forall|k: int|
            0 <= k < s.row_from(i).len() - 1 ==> #[trigger] s.row_others(i)[k] == s.row_from(i)[k
                + 1],
        forall|k1: int, k2: int|
            0 <= k1 < k2 < s.row_from(i).len() ==> #[trigger] s.col_from(i, k1)
                != #[trigger] s.col_from(i, k2),
        forall|y: Cf|
            s.row_hits(s.row_of[i.0 as int] as int, y) <==> s.hits_upto(
                i,
                y,
                s.row_from(i).len() as int,
            ),
{
    let r = s.row_of[i.0 as int] as int;
    let row = s.row(r);
    let p = s.rings.pos[i.0 as int];
    let len = row.len() as int;
    let rf = s.row_from(i);
    assert(s.entry_ok(i.0 as int));
    assert forall|k: int| 0 <= k < rf.len() implies {
        let x = #[trigger] rf[k];
        &&& s.valid_df(x)
        &&& s.row_of[x.0 as int] == r
        &&& s.rings.pos[x.0 as int] == wrap(p + k, len)
        &&& x == row[s.rings.pos[x.0 as int]]
    } by {
        assert(s.place_ok(r, wrap(p + k, len)));
    }
    assert forall|k1: int, k2: int| 0 <= k1 < k2 < rf.len() implies #[trigger] s.col_from(i, k1)
        != #[trigger] s.col_from(i, k2) by {
        let q1 = wrap(p + k1, len);
        let q2 = wrap(p + k2, len);
        assert(rf[k1] == row[q1] && rf[k2] == row[q2]);
        if q1 < q2 {
            assert(s.apart(r, q1, q2));
        } else {
            assert(s.apart(r, q2, q1));
        }
    }
    assert forall|y: Cf| s.row_hits(r, y) <==> s.hits_upto(i, y, len) by {
        if s.row_hits(r, y) {
            let q = choose|q: int| 0 <= q < s.row(r).len() && s.col_of(#[trigger] s.row(r)[q]) == y;
            let k = if q >= p {
                q - p
            } else {
                q + len - p
            };
            assert(rf[k] == row[q]);
            assert(s.col_from(i, k) == y);
        }
        if s.hits_upto(i, y, len) {
            let k = choose|k: int| 0 <= k < len && #[trigger] s.col_from(i, k) == y;
            let q = wrap(p + k, len);
            assert(rf[k] == row[q]);
            assert(s.col_of(s.row(r)[q]) == y);
        }
    }
}

/// Whether a row has an entry in a column does not depend on the links.
pub proof fn lemma_row_hits_same<L>(s: State<L>, t: State<L>, r: int, y: Cf)
    requires
        s.rows_ok(),
        s.same_matrix(t),
        0 <= r < s.rings.row.len(),
    ensures
        t.row_hits(r, y) == s.row_hits(r, y),
{
    if s.row_hits(r, y) {
        let q = choose|q: int| 0 <= q < s.row(r).len() && s.col_of(#[trigger] s.row(r)[q]) == y;
        assert(s.place_ok(r, q));
        assert(t.col_of(t.row(r)[q]) == y);
    }
    if t.row_hits(r, y) {
        let q = choose|q: int| 0 <= q < t.row(r).len() && t.col_of(#[trigger] t.row(r)[q]) == y;
        assert(s.place_ok(r, q));
        assert(s.col_of(s.row(r)[q]) == y);
    }
}

/// What covering the columns of the first `m` entries of a live row does:
/// the matrix stays well formed, those columns leave the header ring, the
/// rows that pass through any of them stop being live, and nothing else
/// changes in which columns are linked and which rows are live.
pub proof fn lemma_cover_row<L>(s: State<L>, i: Df, m: int)
    requires
        s.wf(),
        s.entry_live(i),
        0 <= m <= s.row_from(i).len(),
    ensures
        s.cover_row_upto(i, m).wf(),
        s.same_matrix(s.cover_row_upto(i, m)),
        s.cover_row_upto(i, m).rings.header.len() == s.rings.header.len() - m,
        forall|y: Cf| #[trigger]
            s.cover_row_upto(i, m).active(y) <==> s.active(y) && !s.hits_upto(i, y, m),
        forall|r: int|
            0 <= r < s.rings.row.len() ==> (#[trigger] s.cover_row_upto(i, m).row_live(r)
                <==> s.row_live(r) && s.clear_upto(i, r, m)),
        m >= 1 ==> s.cover_row_upto(i, m).column(s.col_of(i)) == s.column(s.col_of(i)),
        m < s.row_from(i).len() ==> s.cover_row_upto(i, m).active(s.col_from(i, m)),
    decreases m,
{
    let sm = s.cover_row_upto(i, m);
    let r0 = s.row_of[i.0 as int] as int;
    lemma_row_from(s, i);
    assert(s.row_live(r0));
    assert(s.entry_ok(i.0 as int));
    if m > 0 {
        let prev = s.cover_row_upto(i, m - 1);
        let y0 = s.col_from(i, m - 1);
        lemma_cover_row(s, i, m - 1);
        lemma_cover(prev, y0);
        assert forall|x: Df| s.valid_df(x) implies (#[trigger] sm.data[x.0 as int]).l
            == s.data[x.0 as int].l && sm.data[x.0 as int].r == s.data[x.0 as int].r by {
            assert(prev.data[x.0 as int].l == s.data[x.0 as int].l);
        }
        assert(s.same_matrix(sm));
        assert forall|y: Cf| #[trigger] sm.active(y) <==> s.active(y) && !s.hits_upto(i, y, m) by {
            assert(sm.active(y) <==> prev.active(y) && y != y0);
            assert(prev.active(y) <==> s.active(y) && !s.hits_upto(i, y, m - 1));
            if s.hits_upto(i, y, m) {
                let k = choose|k: int| 0 <= k < m && #[trigger] s.col_from(i, k) == y;
                if k < m - 1 {
                    assert(s.hits_upto(i, y, m - 1));
                }
            }
            if s.hits_upto(i, y, m - 1) {
                let k = choose|k: int| 0 <= k < m - 1 && #[trigger] s.col_from(i, k) == y;
                assert(s.col_from(i, k) == y);
            }
            if y == y0 {
                assert(s.col_from(i, m - 1) == y);
            }
        }
        assert forall|r: int| 0 <= r < s.rings.row.len() implies (#[trigger] sm.row_live(r)
            <==> s.row_live(r) && s.clear_upto(i, r, m)) by {
            assert(sm.row_live(r) <==> prev.row_live(r) && !prev.row_hits(r, y0));
            lemma_row_hits_same(s, prev, r, y0);
            assert(prev.row_live(r) <==> s.row_live(r) && s.clear_upto(i, r, m - 1));
            if s.clear_upto(i, r, m - 1) && !s.row_hits(r, y0) {
                assert forall|k: int| 0 <= k < m implies !s.row_hits(
                    r,
                    #[trigger] s.col_from(i, k),
                ) by {}
            }
            if s.clear_upto(i, r, m) {
                assert(!s.row_hits(r, s.col_from(i, m - 1)));
                assert forall|k: int| 0 <= k < m - 1 implies !s.row_hits(
                    r,
                    #[trigger] s.col_from(i, k),
                ) by {}
            }
        }
        let c = s.col_of(i);
        assert(s.col_from(i, 0) == c);
        if m >= 2 {
            assert(s.hits_upto(i, c, m - 1));
            assert(!prev.active(c));
            assert(prev.valid_cf(c));
            assert(sm.column(c) == prev.column(c));
        } else {
            assert(prev == s);
            assert(y0 == c);
        }
    } else {
        assert forall|y: Cf| #[trigger] sm.active(y) <==> s.active(y) && !s.hits_upto(i, y, m) by {}
        assert forall|r: int| 0 <= r < s.rings.row.len() implies (#[trigger] sm.row_live(r)
            <==> s.row_live(r) && s.clear_upto(i, r, m)) by {}
    }
    if m < s.row_from(i).len() {
        let x = s.row_from(i)[m];
        let ym = s.col_from(i, m);
        assert(s.live_at(r0, s.rings.pos[x.0 as int]));
        assert(s.active(ym));
        if s.hits_upto(i, ym, m) {
            let k = choose|k: int| 0 <= k < m && #[trigger] s.col_from(i, k) == ym;
            assert(s.col_from(i, k) != s.col_from(i, m));
        }
    }
}

/// A strategy for choosing the column to cover next. Its choice depends on
/// nothing but the links and counts of the matrix, and it is a column of
/// the header ring.
pub trait ColumnChoice<L> {
    /// The column that this strategy picks in state `s`.
    spec fn choice(&self, s: State<L>) -> Cf;

    /// In a well-formed matrix that has a column left, the pick is a column
    /// of the header ring.
    proof fn choice_is_active(&self, s: State<L>)
        requires
            s.wf(),
            !s.is_covered(),
        ensures
            s.active(self.choice(s)),
    ;

    /// Picks the column to cover next.
    fn select(&self, m: &DlxMatrix<L>) -> (c: Cf)
        requires
            m@.wf(),
            !m@.is_covered(),
        ensures
            c == self.choice(m@),
    ;
}

/// The solutions that the search finds from state `s` with the strategy
/// `f`, in the order in which it finds them: each is `prefix` followed by
/// the entries chosen from `s` on.
pub open spec fn found<L, H: ColumnChoice<L>>(f: &H, s: State<L>, prefix: Seq<Df>) -> Seq<
    Seq<Df>,
>
    decreases s.rings.header.len(), 1int, 0int,
{
    if s.is_covered() {
        seq![prefix]
    } else {
        let c = f.choice(s);
        found_rows(f, s, prefix, c, s.column(c).len() as int)
    }
}

/// The solutions that the search finds from state `s` by choosing, one
/// after another, the rows of the first `a` entries of column `c`.
pub open spec fn found_rows<L, H: ColumnChoice<L>>(
    f: &H,
    s: State<L>,
    prefix: Seq<Df>,
    c: Cf,
    a: int,
) -> Seq<Seq<Df>>
    decreases s.rings.header.len(), 0int, a,
{
    if 0 < a <= s.column(c).len() && s.wf() && s.active(c) {
        let i = s.column(c)[a - 1];
        proof {
            lemma_active_at(s, c);
            assert(s.column(c).contains(i));
            lemma_member(s, c, i);
            lemma_row_from(s, i);
            lemma_cover_row(s, i, s.row_from(i).len() as int);
        }
        found_rows(f, s, prefix, c, a - 1) + found(f, s.choose_row(i), prefix.push(i))
    } else {
        Seq::empty()
    }
}

/// The first column of the header ring.
pub fn trivial_col_choice<L>(m: &DlxMatrix<L>) -> (c: Cf)
    requires
        m@.wf(),
        !m@.is_covered(),
    ensures
        c == m@.rings.header[0],
{
    match m.root.r {
        CR::Ccr(cf) => cf,
        CR::Rootcr => vstd::pervasive::unreached(),
    }
}

impl<L> State<L> {
    /// Column `c` stands at place `k` of the header ring, no column of the
    /// ring has a smaller active count, and none before it has the same.
    pub open spec fn first_min_at(self, c: Cf, k: int) -> bool {
        let hdr = self.rings.header;
        &&& 0 <= k < hdr.len()
        &&& hdr[k] == c
        &&& forall|q: int|
            0 <= q < hdr.len() ==> self.cols[(#[trigger] hdr[q]).0 as int].s
                >= self.cols[c.0 as int].s
        &&& forall|q: int|
            0 <= q < k ==> self.cols[(#[trigger] hdr[q]).0 as int].s > self.cols[c.0 as int].s
    }

    /// Column `c` is the first column of the header ring with the smallest
    /// active count.
    pub open spec fn first_min(self, c: Cf) -> bool {
        exists|k: int| self.first_min_at(c, k)
    }
}

/// The column of the header ring with the smallest active count; of
/// several, the first.
pub fn min_branching_col_choice<L>(m: &DlxMatrix<L>) -> (c: Cf)
    requires
        m@.wf(),
        !m@.is_covered(),
    ensures
        m@.first_min(c),
{
    let ghost hdr = m@.rings.header;
    let ghost mut k: int = 0;
    let ghost mut best: int = 0;
    let mut j = m.root.r;
    let mut c = j;
    let mut s: Option<usize> = None;
    loop
        invariant
            m@.wf(),
            hdr == m@.rings.header,
            hdr.len() > 0,
            0 <= k <= hdr.len(),
            j == cr_at(hdr, k),
            k == 0 ==> s.is_none() && c == cr_at(hdr, 0),
            k > 0 ==> 0 <= best < k && c == CR::Ccr(hdr[best]) && s == Some(
                m@.cols[hdr[best].0 as int].s,
            ),
            k > 0 ==> forall|q: int|
                0 <= q < k ==> m@.cols[(#[trigger] hdr[q]).0 as int].s
                    >= m@.cols[hdr[best].0 as int].s,
            k > 0 ==> forall|q: int|
                0 <= q < best ==> m@.cols[(#[trigger] hdr[q]).0 as int].s
                    > m@.cols[hdr[best].0 as int].s,
        ensures
            k == hdr.len(),
        decreases hdr.len() - k,
    {
        match j {
            CR::Rootcr => {
                break ;
            },
            CR::Ccr(jd) => {
                proof {
                    assert(m@.header_link_ok(k));
                }
                let s2 = m.cols[jd.0].s;
                match s {
                    None => {
                        s = Some(s2);
                        c = j;
                        proof {
                            best = k;
                        }
                    },
                    Some(s1) => {
                        if s2 < s1 {
                            s = Some(s2);
                            c = j;
                            proof {
                                best = k;
                            }
                        }
                    },
                }
                j = jd.R(m);
                proof {
                    k = k + 1;
                }
            },
        }
    }
    match c {
        CR::Ccr(cf) => {
            proof {
                assert(m@.first_min_at(cf, best));
            }
            cf
        },
        CR::Rootcr => vstd::pervasive::unreached(),
    }
}

/// The strategy that picks the first column of the header ring.
pub struct FirstAvailable;

/// The strategy that picks the column of the header ring with the smallest
/// active count, and of several the first.
pub struct MinimumSize;

impl<L> ColumnChoice<L> for FirstAvailable {
    open spec fn choice(&self, s: State<L>) -> Cf {
        s.rings.header[0]
    }

    proof fn choice_is_active(&self, s: State<L>) {
        assert(s.rings.header[0] == s.rings.header[0]);
    }

    fn select(&self, m: &DlxMatrix<L>) -> (c: Cf) {
        trivial_col_choice(m)
    }
}

/// Among the first `n` columns of a header ring there is a first one with
/// the smallest active count of the `n`.
proof fn lemma_min_upto<L>(s: State<L>, n: int) -> (k: int)
    requires
        0 < n <= s.rings.header.len(),
    ensures
        0 <= k < n,
        forall|q: int|
            0 <= q < n ==> s.cols[(#[trigger] s.rings.header[q]).0 as int].s
                >= s.cols[s.rings.header[k].0 as int].s,
        forall|q: int|
            0 <= q < k ==> s.cols[(#[trigger] s.rings.header[q]).0 as int].s
                > s.cols[s.rings.header[k].0 as int].s,
    decreases n,
{
    if n == 1 {
        0
    } else {
        let k0 = lemma_min_upto(s, n - 1);
        if s.cols[s.rings.header[n - 1].0 as int].s < s.cols[s.rings.header[k0].0 as int].s {
            n - 1
        } else {
            k0
        }
    }
}

/// The first column with the smallest count is one column only.
pub proof fn lemma_first_min_unique<L>(s: State<L>, c1: Cf, c2: Cf)
    requires
        s.first_min(c1),
        s.first_min(c2),
    ensures
        c1 == c2,
{
    let k1 = choose|k: int| s.first_min_at(c1, k);
    let k2 = choose|k: int| s.first_min_at(c2, k);
    let hdr = s.rings.header;
    assert(hdr[k1] == c1 && hdr[k2] == c2);
}

impl<L> ColumnChoice<L> for MinimumSize {
    open spec fn choice(&self, s: State<L>) -> Cf {
        choose|c: Cf| s.first_min(c)
    }

    proof fn choice_is_active(&self, s: State<L>) {
        let k = lemma_min_upto(s, s.rings.header.len() as int);
        let c = s.rings.header[k];
        assert(s.first_min_at(c, k));
        assert(s.first_min(c));
        let c2 = choose|c: Cf| s.first_min(c);
        let k2 = choose|k: int| s.first_min_at(c2, k);
        assert(s.rings.header[k2] == c2);
    }

    fn select(&self, m: &DlxMatrix<L>) -> (c: Cf) {
        let c = min_branching_col_choice(m);
        proof {
            lemma_first_min_unique(m@, c, choose|c: Cf| m@.first_min(c));
        }
        c
    }
}

impl<L> Dlx<L> {
    /// The solutions recorded so far, each as the sequence of its chosen
    /// entries.
    pub open spec fn sols(&self) -> Seq<Seq<Df>> {
        Seq::new(self.solutions@.len(), |q: int| self.solutions@[q]@)
    }

    /// The columns of the row of entry `d`, from that of `d` rightwards round
    /// the row: what identifies the row to a reader.
    pub fn row_containing(&self, d: Df) -> (cols: Vec<Cf>)
        requires
            self.m@.rings_ok(),
            self.m@.valid_df(d),
        ensures
            cols@ == Seq::new(self.m@.row_from(d).len(), |k: int| self.m@.col_from(d, k)),
    {
        let ghost s = self.m@;
        let ghost row = s.row(s.row_of[d.0 as int] as int);
        let ghost p = s.rings.pos[d.0 as int];
        let ghost len = row.len() as int;
        let ghost mut k: int = 0;
        let mut cols: Vec<Cf> = Vec::new();
        let mut cursor = d;
        proof {
            lemma_row_from(s, d);
            assert(s.entry_ok(d.0 as int));
        }
        loop
            invariant_except_break
                k < len,
                cursor == row[wrap(p + k, len)],
            invariant
                s == self.m@,
                s.rings_ok(),
                s.valid_df(d),
                row == s.row(s.row_of[d.0 as int] as int),
                p == s.rings.pos[d.0 as int],
                len == row.len(),
                len == s.row_from(d).len(),
                0 <= p < len,
                row[p] == d,
                0 <= s.row_of[d.0 as int] < s.rings.row.len(),
                0 <= k <= len,
                cols@ == Seq::new(k as nat, |q: int| s.col_from(d, q)),
            ensures
                k == len,
                cols@ == Seq::new(len as nat, |q: int| s.col_from(d, q)),
            decreases len - k,
        {
            proof {
                lemma_row_from(s, d);
                assert(s.row_from(d)[k] == cursor);
                assert(s.place_ok(s.row_of[d.0 as int] as int, wrap(p + k, len)));
                assert(s.entry_ok(cursor.0 as int));
            }
            cols.push(cursor.C(&self.m));
            cursor = cursor.R(&self.m);
            proof {
                k = k + 1;
                assert(cols@ =~= Seq::new(k as nat, |q: int| s.col_from(d, q)));
            }
            if cursor == d {
                proof {
                    if k < len {
                        assert(s.place_ok(s.row_of[d.0 as int] as int, wrap(p + k, len)));
                        assert(s.place_ok(s.row_of[d.0 as int] as int, p));
                    }
                }
                break ;
            }
            proof {
                if k == len {
                    assert(wrap(p + k, len) == p);
                }
            }
        }
        cols
    }

    /// Records the first `k` entries of the stack as one solution.
    fn record(&mut self, k: usize)
        requires
            k <= old(self).soln.len(),
        ensures
            final(self).sols() == old(self).sols().push(old(self).soln@.take(k as int)),
            final(self).m == old(self).m,
            final(self).soln == old(self).soln,
    {
        let mut sol: Vec<Df> = Vec::new();
        let mut q: usize = 0;
        while q < k
            invariant
                0 <= q <= k <= self.soln.len(),
                sol@ == self.soln@.take(q as int),
                *self == *old(self),
            decreases k - q,
        {
            sol.push(self.soln[q]);
            q = q + 1;
            assert(sol@ =~= self.soln@.take(q as int));
        }
        self.solutions.push(sol);
        assert(self.sols() =~= old(self).sols().push(old(self).soln@.take(k as int)));
    }

    /// Searches, depth first, for every way to cover the columns still in
    /// the header ring exactly once with rows that are still candidates,
    /// and records each as the first `k` entries of the stack followed by
    /// one entry of each row chosen. The matrix is left as it was found,
    /// and the stack is cut back to its first `k` entries.
    pub fn search<H: ColumnChoice<L>>(&mut self, k: usize, select_col: &H)
        requires
            old(self).m@.wf(),
            k <= old(self).soln.len(),
        ensures
            final(self).m@ == old(self).m@,
            final(self).soln@ == old(self).soln@.take(k as int),
            final(self).sols() == old(self).sols() + found(
                select_col,
                old(self).m@,
                old(self).soln@.take(k as int),
            ),
        decreases old(self).m@.rings.header.len(),
    {
        let ghost s0 = self.m@;
        let ghost prefix = self.soln@.take(k as int);
        let ghost sols0 = self.sols();
        if self.m.root.r == CR::Rootcr {
            self.record(k);
            self.soln.truncate(k);
            proof {
                assert(s0.is_covered());
                assert(self.sols() =~= sols0 + seq![prefix]);
            }
            return ;
        }
        assert(!s0.is_covered());
        let c = select_col.select(&self.m);
        proof {
            select_col.choice_is_active(s0);
            lemma_active_at(s0, c);
            lemma_cover(s0, c);
        }
        self.cover(c);
        let ghost s1 = self.m@;
        let ghost lst = s0.column(c);
        let ghost mut a: int = 0;
        proof {
            assert(s1.column_ok(c));
        }
        let mut r = c.D(&self.m);
        loop
            invariant
                s0 == old(self).m@,
                s0.wf(),
                s0.active(c),
                s0.valid_cf(c),
                s1 == s0.cover(c),
                s1.wf(),
                s1.column(c) == lst,
                s1.valid_cf(c),
                s0.data.len() == s1.data.len(),
                lst == s0.column(c),
                self.m@ == s1,
                0 <= a <= lst.len(),
                r == dc_at(c, lst, a),
                k <= self.soln.len(),
                self.soln@.take(k as int) == prefix,
                self.sols() == sols0 + found_rows(select_col, s0, prefix, c, a),
            ensures
                a == lst.len(),
            decreases lst.len() - a,
        {
            match r {
                DC::Cdc(_) => {
                    break ;
                },
                DC::Ddc(rd0) => {
                    let ghost row = s0.row(s0.row_of[rd0.0 as int] as int);
                    let ghost p = s0.rings.pos[rd0.0 as int];
                    let ghost len = row.len() as int;
                    let ghost sols1 = self.sols();
                    proof {
                        assert(rd0 == lst[a]);
                        assert(lst.contains(rd0));
                        lemma_member(s0, c, rd0);
                        lemma_row_from(s0, rd0);
                        assert(s0.entry_ok(rd0.0 as int));
                        assert(s0.entry_live(rd0));
                        lemma_cover_row(s0, rd0, 1);
                        assert(s0.cover_row_upto(rd0, 0) == s0);
                        assert(s0.col_from(rd0, 0) == c);
                        assert(s0.cover_row_upto(rd0, 1) == s1);
                    }
                    if self.soln.len() == k {
                        self.soln.push(rd0);
                    } else {
                        self.soln[k] = rd0;
                    }
                    assert(self.soln@.take(k as int + 1) =~= prefix.push(rd0));
                    let ghost mut b: int = 1;
                    let mut j = rd0.R(&self.m);
                    while j != rd0
                        invariant
                            s0.wf(),
                            s0.entry_live(rd0),
                            s0.valid_df(rd0),
                            row == s0.row(s0.row_of[rd0.0 as int] as int),
                            p == s0.rings.pos[rd0.0 as int],
                            len == row.len(),
                            len == s0.row_from(rd0).len(),
                            0 <= p < len,
                            row[p] == rd0,
                            0 <= s0.row_of[rd0.0 as int] < s0.rings.row.len(),
                            1 <= b <= len,
                            self.m@ == s0.cover_row_upto(rd0, b),
                            j == row[wrap(p + b, len)],
                            self.soln@.take(k as int + 1) == prefix.push(rd0),
                            k < self.soln.len(),
                            self.sols() == sols1,
                        decreases len - b,
                    {
                        proof {
                            if b == len {
                                assert(wrap(p + b, len) == p);
                            }
                            lemma_row_from(s0, rd0);
                            lemma_cover_row(s0, rd0, b);
                            assert(s0.row_from(rd0)[b] == j);
                            assert(s0.place_ok(s0.row_of[rd0.0 as int] as int, wrap(p + b, len)));
                            assert(s0.entry_ok(j.0 as int));
                        }
                        let cj = j.C(&self.m);
                        self.cover(cj);
                        proof {
                            lemma_cover_row(s0, rd0, b + 1);
                        }
                        j = j.R(&self.m);
                        proof {
                            b = b + 1;
                        }
                    }
                    proof {
                        if b < len {
                            assert(s0.place_ok(s0.row_of[rd0.0 as int] as int, wrap(p + b, len)));
                            assert(s0.place_ok(s0.row_of[rd0.0 as int] as int, p));
                        }
                        assert(b == len);
                        lemma_cover_row(s0, rd0, len);
                    }
                    let ghost s2 = self.m@;
                    self.search(k + 1, select_col);
                    let rd = self.soln[k];
                    proof {
                        assert(self.soln@ == prefix.push(rd0));
                        assert(rd == rd0);
                        assert(self.soln@.take(k as int) =~= prefix);
                        assert(found_rows(select_col, s0, prefix, c, a + 1) == found_rows(
                            select_col,
                            s0,
                            prefix,
                            c,
                            a,
                        ) + found(select_col, s0.choose_row(rd0), prefix.push(rd0)));
                        assert(self.sols() =~= sols0 + found_rows(
                            select_col,
                            s0,
                            prefix,
                            c,
                            a + 1,
                        ));
                        assert(prev_pos(p, len) == wrap(p + len - 1, len));
                    }
                    let ghost sols2 = self.sols();
                    let mut j = rd.L(&self.m);
                    while j != rd
                        invariant
                            s0.wf(),
                            s0.entry_live(rd),
                            s0.valid_df(rd),
                            row == s0.row(s0.row_of[rd.0 as int] as int),
                            p == s0.rings.pos[rd.0 as int],
                            len == row.len(),
                            len == s0.row_from(rd).len(),
                            0 <= p < len,
                            row[p] == rd,
                            0 <= s0.row_of[rd.0 as int] < s0.rings.row.len(),
                            1 <= b <= len,
                            self.m@ == s0.cover_row_upto(rd, b),
                            j == row[wrap(p + b - 1, len)],
                            self.soln@.take(k as int) == prefix,
                            k <= self.soln.len(),
                            self.sols() == sols2,
                        decreases b,
                    {
                        proof {
                            if b == 1 {
                                assert(wrap(p + b - 1, len) == p);
                            }
                            lemma_row_from(s0, rd);
                            lemma_cover_row(s0, rd, b - 1);
                            lemma_cover_row(s0, rd, b);
                            assert(s0.row_from(rd)[b - 1] == j);
                            assert(s0.place_ok(
                                s0.row_of[rd.0 as int] as int,
                                wrap(p + b - 1, len),
                            ));
                            assert(s0.entry_ok(j.0 as int));
                            assert(self.m@.col_of(j) == s0.col_from(rd, b - 1));
                            assert(self.m@.covered_from(
                                s0.cover_row_upto(rd, b - 1),
                                s0.col_from(rd, b - 1),
                            ));
                        }
                        let cj = j.C(&self.m);
                        self.uncover(cj);
                        proof {
                            assert(self.m@ == s0.cover_row_upto(rd, b - 1));
                        }
                        j = j.L(&self.m);
                        proof {
                            b = b - 1;
                        }
                    }
                    proof {
                        if b > 1 {
                            assert(s0.place_ok(
                                s0.row_of[rd.0 as int] as int,
                                wrap(p + b - 1, len),
                            ));
                            assert(s0.place_ok(s0.row_of[rd.0 as int] as int, p));
                        }
                        assert(b == 1);
                        assert(s1.column_ok(c));
                        assert(s1.col_link_ok(c, a));
                    }
                    r = rd.D(&self.m);
                    proof {
                        a = a + 1;
                    }
                },
            }
        }
        proof {
            assert(self.m@.covered_from(s0, c));
        }
        self.uncover(c);
        self.soln.truncate(k);
        proof {
            assert(self.soln@ =~= prefix);
        }
    }
}

} // verus!
