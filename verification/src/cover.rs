//! `cover` and `uncover`: a column leaves the header ring and takes with it,
//! out of every other column, the rows that pass through it; then all of it
//! comes back, in exactly the reverse order.

use crate::dancing_links::{
    cr_at, dc_at, prev_pos, Cf, Df, Dlx, DlxMatrix, Rings, State, CR, DC,
};
use crate::links::{
    lemma_column_kept, lemma_linked_at, lemma_member, lemma_relink_seq, lemma_relink_unlink,
    lemma_unlink, lemma_unlink_fields, lemma_unlink_seq,
};
use vstd::prelude::*;

verus! {

/// The place `x` of a ring of `len` places, where `x` may have run once
/// past its end.
pub open spec fn wrap(x: int, len: int) -> int {
    if x < len {
        x
    } else {
        x - len
    }
}

impl<L> State<L> {
    /// The place in the header ring where header `c` goes back: after the
    /// header that its `l` link names, or first after the root.
    pub open spec fn header_slot(self, c: Cf) -> int {
        match self.cols[c.0 as int].l {
            CR::Rootcr => 0,
            CR::Ccr(p) => self.rings.header.index_of(p) + 1,
        }
    }

    pub open spec fn with_header(self, hdr: Seq<Cf>) -> State<L> {
        State { rings: Rings { header: hdr, ..self.rings }, ..self }
    }

    /// Header `c` leaves the header ring: its two neighbours are joined, and
    /// `c` keeps its own links.
    #[verifier::opaque]
    pub open spec fn detach(self, c: Cf) -> State<L> {
        let s1 = self.set_cr_l(self.cols[c.0 as int].r, self.cols[c.0 as int].l);
        let s2 = s1.set_cr_r(s1.cols[c.0 as int].l, s1.cols[c.0 as int].r);
        s2.with_header(self.rings.header.remove(self.rings.header.index_of(c)))
    }

    /// Header `c` goes back between the neighbours that its own links still
    /// name.
    #[verifier::opaque]
    pub open spec fn attach(self, c: Cf) -> State<L> {
        let s1 = self.set_cr_l(self.cols[c.0 as int].r, CR::Ccr(c));
        let s2 = s1.set_cr_r(s1.cols[c.0 as int].l, CR::Ccr(c));
        s2.with_header(self.rings.header.insert(self.header_slot(c), c))
    }

    /// The other entries of the row of entry `i`, from its right neighbour
    /// rightwards round the row.
    pub open spec fn row_others(self, i: Df) -> Seq<Df> {
        let row = self.row(self.row_of[i.0 as int] as int);
        let p = self.rings.pos[i.0 as int];
        Seq::new((row.len() - 1) as nat, |t: int| row[wrap(p + 1 + t, row.len() as int)])
    }

    /// The entries that covering column `c` unlinks for the first `a`
    /// entries of its ring, in the order in which it unlinks them.
    pub open spec fn cover_ops_upto(self, c: Cf, a: int) -> Seq<Df>
        decreases a,
    {
        if a <= 0 {
            Seq::empty()
        } else {
            self.cover_ops_upto(c, a - 1) + self.row_others(self.column(c)[a - 1])
        }
    }

    /// The entries that covering column `c` unlinks, in the order in which
    /// it unlinks them: for each entry of the ring of `c`, from the top
    /// down, the other entries of its row, from left to right.
    pub open spec fn cover_ops(self, c: Cf) -> Seq<Df> {
        self.cover_ops_upto(c, self.column(c).len() as int)
    }

    /// The state after covering column `c`.
    pub open spec fn cover(self, c: Cf) -> State<L> {
        self.detach(c).unlink_seq(self.cover_ops(c))
    }

    /// The state after uncovering column `c`: what `cover` unlinked is
    /// relinked, the last first, and then `c` goes back among the headers.
    pub open spec fn uncover(self, c: Cf) -> State<L> {
        self.relink_seq(self.cover_ops(c)).attach(c)
    }

    /// Row `r` has an entry in column `c`.
    pub open spec fn row_hits(self, r: int, c: Cf) -> bool {
        exists|k: int| 0 <= k < self.row(r).len() && self.col_of(#[trigger] self.row(r)[k]) == c
    }

    /// Row `r` has an entry among the first `a` of the ring of column `c`.
    pub open spec fn hit_before(self, c: Cf, r: int, a: int) -> bool {
        exists|k: int| 0 <= k < a && self.row_of[(#[trigger] self.column(c)[k]).0 as int] == r
    }

    /// State `t` differs from this one in the header ring alone: the `l`
    /// link of `at_l` is `new_l`, the `r` link of `at_r` is `new_r`, the
    /// ring is `hdr`, and all else is as here.
    pub open spec fn header_moved(
        self,
        t: State<L>,
        at_l: CR,
        new_l: CR,
        at_r: CR,
        new_r: CR,
        hdr: Seq<Cf>,
    ) -> bool {
        &&& t.data == self.data
        &&& t.cols.len() == self.cols.len()
        &&& t.row_of == self.row_of
        &&& t.row_labels == self.row_labels
        &&& t.rings.row == self.rings.row
        &&& t.rings.pos == self.rings.pos
        &&& t.rings.column == self.rings.column
        &&& t.rings.header == hdr
        &&& t.root.l == if at_l == CR::Rootcr {
            new_l
        } else {
            self.root.l
        }
        &&& t.root.r == if at_r == CR::Rootcr {
            new_r
        } else {
            self.root.r
        }
        &&& forall|y: Cf|
            self.valid_cf(y) ==> {
                &&& (#[trigger] t.cols[y.0 as int]).l == if at_l == CR::Ccr(y) {
                    new_l
                } else {
                    self.cols[y.0 as int].l
                }
                &&& t.cols[y.0 as int].r == if at_r == CR::Ccr(y) {
                    new_r
                } else {
                    self.cols[y.0 as int].r
                }
                &&& t.cols[y.0 as int].u == self.cols[y.0 as int].u
                &&& t.cols[y.0 as int].d == self.cols[y.0 as int].d
                &&& t.cols[y.0 as int].s == self.cols[y.0 as int].s
                &&& t.cols[y.0 as int].c == self.cols[y.0 as int].c
                &&& t.cols[y.0 as int].n == self.cols[y.0 as int].n
            }
    }
}

/// A header that is linked into the header ring stands at one place of it.
pub proof fn lemma_active_at<L>(s: State<L>, c: Cf)
    requires
        s.header_ok(),
        s.active(c),
    ensures
        s.valid_cf(c),
        0 <= s.rings.header.index_of(c) < s.rings.header.len(),
        s.rings.header[s.rings.header.index_of(c)] == c,
        s.cols[c.0 as int].l == cr_at(s.rings.header, s.rings.header.index_of(c) - 1),
        s.cols[c.0 as int].r == cr_at(s.rings.header, s.rings.header.index_of(c) + 1),
        s.valid_cr(s.cols[c.0 as int].l),
        s.valid_cr(s.cols[c.0 as int].r),
        s.cols[c.0 as int].l != CR::Ccr(c),
        s.cols[c.0 as int].r != CR::Ccr(c),
{
    let hdr = s.rings.header;
    let k = hdr.index_of(c);
    assert(hdr[k] == c);
    assert(s.header_link_ok(k));
    if k + 1 < hdr.len() {
        assert(s.header_link_ok(k + 1));
    }
    if k >= 1 {
        assert(s.header_link_ok(k - 1));
    }
}

/// What `detach` changes, field by field.
pub proof fn lemma_detach_fields<L>(s: State<L>, c: Cf)
    requires
        s.cols.len() <= usize::MAX,
        s.valid_cf(c),
        s.valid_cr(s.cols[c.0 as int].l),
        s.valid_cr(s.cols[c.0 as int].r),
        s.cols[c.0 as int].l != CR::Ccr(c),
        s.cols[c.0 as int].r != CR::Ccr(c),
    ensures
        s.header_moved(
            s.detach(c),
            s.cols[c.0 as int].r,
            s.cols[c.0 as int].l,
            s.cols[c.0 as int].l,
            s.cols[c.0 as int].r,
            s.rings.header.remove(s.rings.header.index_of(c)),
        ),
{
    reveal(State::detach);
    let t = s.detach(c);
    assert(t.data == s.data);
}

/// What `attach` changes, field by field.
pub proof fn lemma_attach_fields<L>(s: State<L>, c: Cf)
    requires
        s.cols.len() <= usize::MAX,
        s.valid_cf(c),
        s.valid_cr(s.cols[c.0 as int].l),
        s.valid_cr(s.cols[c.0 as int].r),
        s.cols[c.0 as int].l != CR::Ccr(c),
        s.cols[c.0 as int].r != CR::Ccr(c),
    ensures
        s.header_moved(
            s.attach(c),
            s.cols[c.0 as int].r,
            CR::Ccr(c),
            s.cols[c.0 as int].l,
            CR::Ccr(c),
            s.rings.header.insert(s.header_slot(c), c),
        ),
{
    reveal(State::attach);
    let t = s.attach(c);
    assert(t.data == s.data);
}

/// Detaching a linked header keeps every ring circular and every count right;
/// the header leaves the header ring, nothing else changes, and attaching it
/// again gives back the state from before.
pub proof fn lemma_detach<L>(s: State<L>, c: Cf)
    requires
        s.rings_ok(),
        s.active(c),
    ensures
        s.detach(c).rings_ok(),
        s.detach(c).data == s.data,
        s.detach(c).cols.len() == s.cols.len(),
        s.detach(c).row_of == s.row_of,
        s.detach(c).rings.row == s.rings.row,
        s.detach(c).rings.pos == s.rings.pos,
        s.detach(c).rings.column == s.rings.column,
        s.detach(c).rings.header == s.rings.header.remove(s.rings.header.index_of(c)),
        forall|y: Cf| #[trigger] s.detach(c).active(y) <==> s.active(y) && y != c,
        s.detach(c).attach(c) == s,
{
    lemma_active_at(s, c);
    lemma_detach_fields(s, c);
    let t = s.detach(c);
    let hdr = s.rings.header;
    let k = hdr.index_of(c);
    let hdr2 = hdr.remove(k);
    let lf = s.cols[c.0 as int].l;
    let rt = s.cols[c.0 as int].r;
    hdr.remove_ensures(k);
    assert forall|d: int| 0 <= d < t.data.len() implies #[trigger] t.entry_ok(d) by {
        assert(s.entry_ok(d));
    }
    assert forall|y: int| 0 <= y < t.cols.len() implies (#[trigger] t.cols[y]).c.0 == y by {
        let yc = Cf(y as usize);
        assert(s.valid_cf(yc));
        assert(t.cols[yc.0 as int].c == s.cols[yc.0 as int].c);
        assert(s.cols[y].c.0 == y);
    }
    assert(t.shape_ok());
    assert forall|r: int, q: int|
        0 <= r < t.rings.row.len() && 0 <= q < t.rings.row[r].len() implies #[trigger] t.place_ok(
        r,
        q,
    ) by {
        assert(s.place_ok(r, q));
    }
    assert forall|r: int, k1: int, k2: int|
        0 <= r < t.rings.row.len() && 0 <= k1 < k2 < t.rings.row[r].len() implies #[trigger] t.apart(
        r,
        k1,
        k2,
    ) by {
        assert(s.apart(r, k1, k2));
    }
    assert(t.rows_ok());
    assert forall|c2: Cf| t.valid_cf(c2) implies #[trigger] t.column_ok(c2) by {
        assert(s.column_ok(c2));
        assert(t.cols[c2.0 as int].u == s.cols[c2.0 as int].u);
        lemma_column_kept(s, t, c2);
    }
    assert forall|m: int| 0 <= m < hdr2.len() implies #[trigger] t.header_link_ok(m) by {
        let m0 = if m < k {
            m
        } else {
            m + 1
        };
        let y = hdr[m0];
        assert(hdr2[m] == y);
        assert(s.header_link_ok(m0));
        assert(y != c);
        assert(t.cols[y.0 as int].l == if rt == CR::Ccr(y) {
            lf
        } else {
            s.cols[y.0 as int].l
        });
        if m + 1 < hdr2.len() {
            assert(hdr2[m + 1] == hdr[if m + 1 < k {
                m + 1
            } else {
                m + 2
            }]);
        }
        if m >= 1 {
            assert(hdr2[m - 1] == hdr[if m - 1 < k {
                m - 1
            } else {
                m
            }]);
        }
        if rt == CR::Ccr(y) {
            assert(m0 == k + 1);
        }
        if lf == CR::Ccr(y) {
            assert(m0 == k - 1);
        }
    }
    assert(hdr2.no_duplicates());
    if hdr2.len() > 0 {
        if k == 0 {
            assert(hdr2[0] == hdr[1]);
        } else {
            assert(hdr2[0] == hdr[0]);
        }
        if k == hdr.len() - 1 {
            assert(hdr2[hdr2.len() - 1] == hdr[k - 1]);
        } else {
            assert(hdr2[hdr2.len() - 1] == hdr[hdr.len() - 1]);
        }
    }
    assert(t.header_ok());
    assert forall|y: Cf| #[trigger] t.active(y) <==> s.active(y) && y != c by {
        if s.active(y) && y != c {
            let m = hdr.index_of(y);
            assert(hdr[m] == y);
            let m2 = if m < k {
                m
            } else {
                m - 1
            };
            assert(hdr2[m2] == y);
        }
        if t.active(y) {
            let m = hdr2.index_of(y);
            assert(hdr2[m] == y);
            let m0 = if m < k {
                m
            } else {
                m + 1
            };
            assert(hdr[m0] == y);
        }
    }
    // attaching it again
    assert(t.cols[c.0 as int].l == lf && t.cols[c.0 as int].r == rt);
    lemma_attach_fields(t, c);
    let r = t.attach(c);
    assert(t.header_slot(c) == k) by {
        if k > 0 {
            let p = hdr[k - 1];
            assert(hdr2[k - 1] == p);
            let q = hdr2.index_of(p);
            assert(hdr2[q] == p);
        }
    }
    hdr2.insert_ensures(k, c);
    assert(hdr2.insert(k, c) =~= hdr);
    assert(r.rings =~= s.rings);
    assert forall|y: int| 0 <= y < s.cols.len() implies r.cols[y] == s.cols[y] by {
        let yc = Cf(y as usize);
        assert(s.valid_cf(yc));
        assert(t.cols[yc.0 as int].l == if rt == CR::Ccr(yc) {
            lf
        } else {
            s.cols[yc.0 as int].l
        });
        assert(r.cols[yc.0 as int].l == if rt == CR::Ccr(yc) {
            CR::Ccr(c)
        } else {
            t.cols[yc.0 as int].l
        });
        if rt == CR::Ccr(yc) {
            assert(hdr[k + 1] == yc);
            assert(s.header_link_ok(k + 1));
        }
        if lf == CR::Ccr(yc) {
            assert(hdr[k - 1] == yc);
            assert(s.header_link_ok(k - 1));
        }
    }
    assert(r.cols =~= s.cols);
    assert(r.root == s.root);
    assert(r =~= s);
}

/// The other entries of a row are its entries but one, each once.
pub proof fn lemma_row_others<L>(s: State<L>, i: Df)
    requires
        s.shape_ok(),
        s.rows_ok(),
        s.valid_df(i),
    ensures
        s.row_others(i).len() == s.row(s.row_of[i.0 as int] as int).len() - 1,
        s.row_others(i).no_duplicates(),
        forall|t: int|
            0 <= t < s.row_others(i).len() ==> {
                let x = #[trigger] s.row_others(i)[t];
                &&& s.valid_df(x)
                &&& x != i
                &&& s.row_of[x.0 as int] == s.row_of[i.0 as int]
                &&& s.col_of(x) != s.col_of(i)
                &&& x == s.row(s.row_of[i.0 as int] as int)[s.rings.pos[x.0 as int]]
            },
        forall|x: Df|
            s.valid_df(x) ==> (#[trigger] s.row_others(i).contains(x) <==> x != i
                && s.row_of[x.0 as int] == s.row_of[i.0 as int]),
{
    let r = s.row_of[i.0 as int] as int;
    let row = s.row(r);
    let p = s.rings.pos[i.0 as int];
    let len = row.len() as int;
    let o = s.row_others(i);
    assert(s.entry_ok(i.0 as int));
    assert(row[p] == i);
    assert forall|t: int| 0 <= t < o.len() implies {
        let x = #[trigger] o[t];
        &&& s.valid_df(x)
        &&& x != i
        &&& s.row_of[x.0 as int] == r
        &&& s.col_of(x) != s.col_of(i)
        &&& x == row[s.rings.pos[x.0 as int]]
        &&& s.rings.pos[x.0 as int] == wrap(p + 1 + t, len)
    } by {
        let q = wrap(p + 1 + t, len);
        assert(o[t] == row[q]);
        assert(s.place_ok(r, q));
        assert(s.place_ok(r, p));
        if q < p {
            assert(s.apart(r, q, p));
        } else {
            assert(s.apart(r, p, q));
        }
    }
    assert forall|t1: int, t2: int| 0 <= t1 < o.len() && 0 <= t2 < o.len() && t1 != t2 implies o[t1]
        != o[t2] by {
        assert(s.rings.pos[o[t1].0 as int] == wrap(p + 1 + t1, len));
        assert(s.rings.pos[o[t2].0 as int] == wrap(p + 1 + t2, len));
    }
    assert forall|x: Df| s.valid_df(x) implies (#[trigger] o.contains(x) <==> x != i
        && s.row_of[x.0 as int] == r) by {
        if o.contains(x) {
            let t = o.index_of(x);
            assert(o[t] == x);
        }
        if x != i && s.row_of[x.0 as int] == r {
            assert(s.entry_ok(x.0 as int));
            let q = s.rings.pos[x.0 as int];
            assert(row[q] == x);
            let t = if q > p {
                q - p - 1
            } else {
                q + len - p - 1
            };
            assert(o[t] == row[wrap(p + 1 + t, len)]);
        }
    }
}

/// A row has at most one entry in a column.
pub proof fn lemma_one_per_row<L>(s: State<L>, x: Df, y: Df)
    requires
        s.shape_ok(),
        s.rows_ok(),
        s.valid_df(x),
        s.valid_df(y),
        s.col_of(x) == s.col_of(y),
        s.row_of[x.0 as int] == s.row_of[y.0 as int],
    ensures
        x == y,
{
    let r = s.row_of[x.0 as int] as int;
    assert(s.entry_ok(x.0 as int));
    assert(s.entry_ok(y.0 as int));
    let px = s.rings.pos[x.0 as int];
    let py = s.rings.pos[y.0 as int];
    if px < py {
        assert(s.apart(r, px, py));
    } else if py < px {
        assert(s.apart(r, py, px));
    }
}

/// What covering column `c` unlinks for the first `a` entries of its ring:
/// distinct entries, each linked into another column that is itself
/// linked, and exactly the entries outside `c` of the rows of those `a`
/// entries.
pub proof fn lemma_cover_ops_upto<L>(s: State<L>, c: Cf, a: int)
    requires
        s.wf(),
        s.active(c),
        0 <= a <= s.column(c).len(),
    ensures
        s.cover_ops_upto(c, a).no_duplicates(),
        forall|k: int|
            0 <= k < s.cover_ops_upto(c, a).len() ==> {
                let x = #[trigger] s.cover_ops_upto(c, a)[k];
                &&& s.entry_live(x)
                &&& s.col_of(x) != c
            },
        forall|x: Df|
            s.valid_df(x) ==> (#[trigger] s.cover_ops_upto(c, a).contains(x) <==> s.col_of(x) != c
                && s.hit_before(c, s.row_of[x.0 as int] as int, a)),
    decreases a,
{
    let ops = s.cover_ops_upto(c, a);
    lemma_active_at(s, c);
    if a > 0 {
        let prev = s.cover_ops_upto(c, a - 1);
        let lst = s.column(c);
        let i = lst[a - 1];
        let o = s.row_others(i);
        let r = s.row_of[i.0 as int] as int;
        lemma_cover_ops_upto(s, c, a - 1);
        assert(lst.contains(i));
        lemma_member(s, c, i);
        lemma_row_others(s, i);
        assert(s.entry_live(i));
        assert(s.row_live(r));
        assert(ops == prev + o);
        assert forall|k: int| 0 <= k < ops.len() implies {
            let x = #[trigger] ops[k];
            &&& s.entry_live(x)
            &&& s.col_of(x) != c
        } by {
            if k < prev.len() {
                assert(ops[k] == prev[k]);
            } else {
                let x = o[k - prev.len()];
                assert(ops[k] == x);
                assert(s.entry_ok(x.0 as int));
                assert(s.live_at(r, s.rings.pos[x.0 as int]));
            }
        }
        assert forall|x: Df| s.valid_df(x) implies (#[trigger] ops.contains(x) <==> s.col_of(x)
            != c && s.hit_before(c, s.row_of[x.0 as int] as int, a)) by {
            let rx = s.row_of[x.0 as int] as int;
            if ops.contains(x) {
                let k = ops.index_of(x);
                assert(ops[k] == x);
                if k < prev.len() {
                    assert(prev[k] == x);
                    assert(prev.contains(x));
                    let w = choose|w: int|
                        0 <= w < a - 1 && s.row_of[(#[trigger] s.column(c)[w]).0 as int] == rx;
                    assert(s.row_of[s.column(c)[w].0 as int] == rx);
                } else {
                    assert(o[k - prev.len()] == x);
                    assert(s.row_of[s.column(c)[a - 1].0 as int] == rx);
                }
            }
            if s.col_of(x) != c && s.hit_before(c, rx, a) {
                let w = choose|w: int|
                    0 <= w < a && s.row_of[(#[trigger] s.column(c)[w]).0 as int] == rx;
                if w < a - 1 {
                    assert(s.hit_before(c, rx, a - 1));
                    assert(prev.contains(x));
                    let k = prev.index_of(x);
                    assert(ops[k] == x);
                } else {
                    assert(o.contains(x));
                    let t = o.index_of(x);
                    assert(ops[prev.len() + t] == x);
                }
            }
        }
        assert forall|k1: int, k2: int|
            0 <= k1 < ops.len() && 0 <= k2 < ops.len() && k1 != k2 implies ops[k1] != ops[k2] by {
            if k1 < prev.len() && k2 < prev.len() {
                assert(ops[k1] == prev[k1] && ops[k2] == prev[k2]);
            } else if k1 >= prev.len() && k2 >= prev.len() {
                assert(ops[k1] == o[k1 - prev.len()] && ops[k2] == o[k2 - prev.len()]);
            } else {
                let (kp, ko) = if k1 < prev.len() {
                    (k1, k2)
                } else {
                    (k2, k1)
                };
                let x = prev[kp];
                let y = o[ko - prev.len()];
                assert(ops[kp] == x && ops[ko] == y);
                if x == y {
                    assert(prev.contains(x));
                    let w = choose|w: int|
                        0 <= w < a - 1 && s.row_of[(#[trigger] s.column(c)[w]).0 as int] == r;
                    let i2 = lst[w];
                    assert(lst.contains(i2));
                    lemma_member(s, c, i2);
                    lemma_one_per_row(s, i, i2);
                    assert(s.column_ok(c));
                    assert(lst[w] != lst[a - 1]);
                }
            }
        }
    }
}

/// What `cover` unlinks depends on the ring of the column and on the rows
/// alone.
pub proof fn lemma_cover_ops_same<L>(s: State<L>, t: State<L>, c: Cf, a: int)
    requires
        t.column(c) == s.column(c),
        t.rings.row == s.rings.row,
        t.rings.pos == s.rings.pos,
        t.row_of == s.row_of,
    ensures
        t.cover_ops_upto(c, a) == s.cover_ops_upto(c, a),
    decreases a,
{
    if a > 0 {
        lemma_cover_ops_same(s, t, c, a - 1);
        assert(t.row_others(t.column(c)[a - 1]) =~= s.row_others(s.column(c)[a - 1]));
    }
}

/// In a well-formed matrix, every entry that covering a linked column is to
/// unlink can be unlinked, and none of them lies in that column.
pub proof fn lemma_cover_can_unlink<L>(s: State<L>, c: Cf)
    requires
        s.wf(),
        s.active(c),
    ensures
        s.detach(c).rings_ok(),
        s.detach(c).can_unlink(s.cover_ops(c)),
        forall|k: int|
            0 <= k < s.cover_ops(c).len() ==> s.detach(c).col_of(#[trigger] s.cover_ops(c)[k])
                != c,
{
    let h = s.detach(c);
    let ops = s.cover_ops(c);
    lemma_detach(s, c);
    lemma_cover_ops_upto(s, c, s.column(c).len() as int);
    assert forall|k: int| 0 <= k < ops.len() implies h.valid_df(#[trigger] ops[k]) && h.linked(
        ops[k],
    ) && h.col_of(ops[k]) != c by {
        assert(s.entry_live(ops[k]));
        assert(h.column(h.col_of(ops[k])) == s.column(s.col_of(ops[k])));
    }
}

/// Uncovering a column right after it was covered gives back the matrix
/// from before the cover: every link and every active count is as it was.
pub proof fn lemma_uncover_cover<L>(s: State<L>, c: Cf)
    requires
        s.wf(),
        s.active(c),
    ensures
        s.cover(c).uncover(c) == s,
{
    let h = s.detach(c);
    let ops = s.cover_ops(c);
    let t = s.cover(c);
    lemma_active_at(s, c);
    lemma_detach(s, c);
    lemma_cover_can_unlink(s, c);
    lemma_unlink_seq(h, ops);
    assert(h.valid_cf(c));
    assert(t.column(c) == h.column(c));
    lemma_cover_ops_same(s, t, c, s.column(c).len() as int);
    assert(t.cover_ops(c) == ops);
    lemma_relink_seq(h, ops);
}

/// What covering a linked column does to a well-formed matrix: the matrix
/// stays well formed; the column leaves the header ring and keeps its own
/// vertical ring; the rows through the column stop being live, and no other
/// row does.
pub proof fn lemma_cover<L>(s: State<L>, c: Cf)
    requires
        s.wf(),
        s.active(c),
    ensures
        s.cover(c).wf(),
        s.cover(c).data.len() == s.data.len(),
        s.cover(c).cols.len() == s.cols.len(),
        s.cover(c).row_of == s.row_of,
        s.cover(c).rings.row == s.rings.row,
        s.cover(c).rings.pos == s.rings.pos,
        s.cover(c).rings.header == s.rings.header.remove(s.rings.header.index_of(c)),
        s.cover(c).rings.header.len() == s.rings.header.len() - 1,
        s.cover(c).column(c) == s.column(c),
        forall|y: Cf|
            s.valid_cf(y) && !s.active(y) ==> #[trigger] s.cover(c).column(y) == s.column(y),
        forall|x: Df| s.valid_df(x) ==> #[trigger] s.cover(c).col_of(x) == s.col_of(x),
        forall|x: Df|
            s.valid_df(x) ==> (#[trigger] s.cover(c).data[x.0 as int]).l == s.data[x.0 as int].l
                && s.cover(c).data[x.0 as int].r == s.data[x.0 as int].r,
        forall|y: Cf| #[trigger] s.cover(c).active(y) <==> s.active(y) && y != c,
        forall|r: int|
            0 <= r < s.rings.row.len() ==> (#[trigger] s.cover(c).row_live(r) <==> s.row_live(r)
                && !s.row_hits(r, c)),
{
    let h = s.detach(c);
    let ops = s.cover_ops(c);
    let t = s.cover(c);
    let lst = s.column(c);
    lemma_active_at(s, c);
    lemma_detach(s, c);
    lemma_cover_can_unlink(s, c);
    lemma_unlink_seq(h, ops);
    lemma_cover_ops_upto(s, c, lst.len() as int);
    s.rings.header.remove_ensures(s.rings.header.index_of(c));
    assert(h.valid_cf(c));
    assert(t.column(c) == h.column(c));
    assert forall|x: Df| s.valid_df(x) implies #[trigger] t.col_of(x) == s.col_of(x) by {
        assert(t.data[x.0 as int].c == h.data[x.0 as int].c);
    }
    assert forall|x: Df| s.valid_df(x) implies (#[trigger] t.data[x.0 as int]).l
        == s.data[x.0 as int].l && t.data[x.0 as int].r == s.data[x.0 as int].r by {
        assert(t.data[x.0 as int].l == h.data[x.0 as int].l);
    }
    assert forall|y: Cf| #[trigger] t.active(y) <==> s.active(y) && y != c by {
        assert(h.active(y) <==> s.active(y) && y != c);
    }
    assert forall|y: Cf| s.valid_cf(y) && !s.active(y) implies #[trigger] t.column(y) == s.column(
        y,
    ) by {
        assert forall|k: int| 0 <= k < ops.len() implies h.col_of(#[trigger] ops[k]) != y by {
            assert(s.entry_live(ops[k]));
        }
        assert(h.valid_cf(y));
        assert(t.column(y) == h.column(y));
    }
    // an entry stays linked unless its row passes through `c` elsewhere
    assert forall|x: Df| s.valid_df(x) implies (#[trigger] t.linked(x) <==> s.linked(x) && !(
    s.col_of(x) != c && s.hit_before(c, s.row_of[x.0 as int] as int, lst.len() as int))) by {
        assert(t.col_of(x) == s.col_of(x));
        assert(h.column(h.col_of(x)) == s.column(s.col_of(x)));
        assert(t.linked(x) <==> h.linked(x) && !ops.contains(x));
    }
    assert forall|r: int| 0 <= r < s.rings.row.len() implies (#[trigger] t.row_live(r)
        <==> s.row_live(r) && !s.row_hits(r, c)) by {
        if s.row_live(r) && !s.row_hits(r, c) {
            assert forall|k: int| 0 <= k < t.row(r).len() implies #[trigger] t.live_at(r, k) by {
                let x = s.row(r)[k];
                assert(s.live_at(r, k));
                assert(s.place_ok(r, k));
                assert(s.col_of(x) != c);
                assert(t.col_of(x) == s.col_of(x));
                if s.hit_before(c, r, lst.len() as int) {
                    let w = choose|w: int|
                        0 <= w < lst.len() && s.row_of[(#[trigger] s.column(c)[w]).0 as int] == r;
                    let i = lst[w];
                    assert(lst.contains(i));
                    lemma_member(s, c, i);
                    assert(s.entry_ok(i.0 as int));
                    assert(s.row(r)[s.rings.pos[i.0 as int]] == i);
                }
                assert(t.linked(x));
            }
        }
        if t.row_live(r) {
            assert forall|k: int| 0 <= k < s.row(r).len() implies #[trigger] s.live_at(r, k) by {
                let x = s.row(r)[k];
                assert(t.live_at(r, k));
                assert(s.place_ok(r, k));
                assert(t.col_of(x) == s.col_of(x));
                assert(t.linked(x));
            }
            if s.row_hits(r, c) {
                let k = choose|k: int|
                    0 <= k < s.row(r).len() && s.col_of(#[trigger] s.row(r)[k]) == c;
                assert(t.live_at(r, k));
                assert(s.place_ok(r, k));
                assert(t.col_of(s.row(r)[k]) == c);
            }
        }
    }
    assert forall|d: Df| #[trigger] t.entry_live(d) implies t.row_live(
        t.row_of[d.0 as int] as int,
    ) by {
        let r = s.row_of[d.0 as int] as int;
        assert(t.col_of(d) == s.col_of(d));
        assert(t.linked(d));
        assert(s.entry_live(d));
        assert(s.row_live(r));
        assert(s.entry_ok(d.0 as int));
        if s.row_hits(r, c) {
            let k = choose|k: int|
                0 <= k < s.row(r).len() && s.col_of(#[trigger] s.row(r)[k]) == c;
            let i = s.row(r)[k];
            assert(s.live_at(r, k));
            assert(s.place_ok(r, k));
            let w = lst.index_of(i);
            assert(lst[w] == i);
            assert(s.row_of[s.column(c)[w].0 as int] == r);
            assert(s.hit_before(c, r, lst.len() as int));
        }
    }
}

/// The first `a` entries of a column's ring give the first part of what
/// `cover` unlinks.
pub proof fn lemma_upto_prefix<L>(s: State<L>, c: Cf, a: int, a2: int)
    requires
        0 <= a <= a2,
    ensures
        s.cover_ops_upto(c, a).len() <= s.cover_ops_upto(c, a2).len(),
        s.cover_ops_upto(c, a) == s.cover_ops_upto(c, a2).take(
            s.cover_ops_upto(c, a).len() as int,
        ),
    decreases a2,
{
    if a < a2 {
        lemma_upto_prefix(s, c, a, a2 - 1);
        assert(s.cover_ops_upto(c, a) =~= s.cover_ops_upto(c, a2).take(
            s.cover_ops_upto(c, a).len() as int,
        ));
    } else {
        assert(s.cover_ops_upto(c, a) =~= s.cover_ops_upto(c, a2).take(
            s.cover_ops_upto(c, a).len() as int,
        ));
    }
}

/// Where the entries of one row stand in what `cover` unlinks.
pub proof fn lemma_cover_ops_index<L>(s: State<L>, c: Cf, a: int, b: int)
    requires
        0 <= a < s.column(c).len(),
        0 <= b < s.row_others(s.column(c)[a]).len(),
    ensures
        s.cover_ops_upto(c, a + 1).len() == s.cover_ops_upto(c, a).len() + s.row_others(
            s.column(c)[a],
        ).len(),
        s.cover_ops_upto(c, a).len() + b < s.cover_ops(c).len(),
        s.cover_ops(c)[s.cover_ops_upto(c, a).len() + b] == s.row_others(s.column(c)[a])[b],
{
    lemma_upto_prefix(s, c, a + 1, s.column(c).len() as int);
    let full = s.cover_ops(c);
    let up = s.cover_ops_upto(c, a + 1);
    let n = s.cover_ops_upto(c, a).len() + b;
    assert(up[n] == full.take(up.len() as int)[n]);
}

/// The state in the middle of a cover, when the first `n` entries have been
/// unlinked: every ring is circular and every count right, the ring of the
/// column itself is untouched, and the next entry is still linked.
pub proof fn lemma_partial_cover<L>(s: State<L>, c: Cf, n: int)
    requires
        s.wf(),
        s.active(c),
        0 <= n <= s.cover_ops(c).len(),
    ensures
        s.detach(c).unlink_seq(s.cover_ops(c).take(n)).rings_ok(),
        s.detach(c).same_frame(s.detach(c).unlink_seq(s.cover_ops(c).take(n))),
        s.detach(c).unlink_seq(s.cover_ops(c).take(n)).column(c) == s.column(c),
        n < s.cover_ops(c).len() ==> {
            let t = s.detach(c).unlink_seq(s.cover_ops(c).take(n));
            let j = s.cover_ops(c)[n];
            &&& t.valid_df(j)
            &&& t.linked(j)
            &&& t.unlink(j) == s.detach(c).unlink_seq(s.cover_ops(c).take(n + 1))
        },
        n == s.cover_ops(c).len() ==> s.detach(c).unlink_seq(s.cover_ops(c).take(n)) == s.cover(
            c,
        ),
{
    let h = s.detach(c);
    let ops = s.cover_ops(c);
    let done = ops.take(n);
    let t = h.unlink_seq(done);
    lemma_active_at(s, c);
    lemma_detach(s, c);
    lemma_cover_can_unlink(s, c);
    assert(h.can_unlink(done)) by {
        assert forall|k: int| 0 <= k < done.len() implies h.valid_df(#[trigger] done[k])
            && h.linked(done[k]) by {
            assert(done[k] == ops[k]);
        }
        assert forall|k1: int, k2: int|
            0 <= k1 < done.len() && 0 <= k2 < done.len() && k1 != k2 implies done[k1]
            != done[k2] by {
            assert(done[k1] == ops[k1] && done[k2] == ops[k2]);
        }
    }
    lemma_unlink_seq(h, done);
    assert(h.valid_cf(c));
    assert forall|k: int| 0 <= k < done.len() implies h.col_of(#[trigger] done[k]) != c by {
        assert(done[k] == ops[k]);
    }
    assert(t.column(c) == h.column(c));
    if n < ops.len() {
        let j = ops[n];
        assert(!done.contains(j)) by {
            if done.contains(j) {
                let k = done.index_of(j);
                assert(done[k] == ops[k]);
            }
        }
        assert(h.valid_df(j) && h.linked(j));
        let more = ops.take(n + 1);
        assert(more.drop_last() =~= done);
        assert(more.last() == j);
    } else {
        assert(done =~= ops);
    }
}

impl<L> DlxMatrix<L> {
    /// Takes entry `j` out of the vertical ring of its column.
    fn unlink(&mut self, j: Df)
        requires
            old(self)@.rings_ok(),
            old(self)@.valid_df(j),
            old(self)@.linked(j),
        ensures
            final(self)@ == old(self)@.unlink(j),
    {
        let ghost s = self@;
        proof {
            lemma_linked_at(s, j);
            reveal(State::unlink);
            assert(s.entry_ok(j.0 as int));
        }
        let new_u = j.U(self);
        j.D(self).update_u(self, new_u);
        let new_d = j.D(self);
        j.U(self).update_d(self, new_d);
        let cj = j.C(self);
        let cnt = cj.S(self);
        *cnt = *cnt - 1;
        self.rings = Ghost(
            Rings {
                column: self.rings@.column.update(
                    cj.0 as int,
                    s.column(cj).remove(s.column(cj).index_of(j)),
                ),
                ..self.rings@
            },
        );
    }

    /// Puts entry `j` back into the vertical ring that it was just taken out
    /// of.
    fn relink(&mut self, j: Df, Ghost(prev): Ghost<State<L>>)
        requires
            prev.rings_ok(),
            prev.valid_df(j),
            prev.linked(j),
            old(self)@ == prev.unlink(j),
        ensures
            final(self)@ == prev,
            final(self)@ == old(self)@.relink(j),
    {
        let ghost t = self@;
        proof {
            lemma_linked_at(prev, j);
            lemma_unlink(prev, j);
            lemma_unlink_fields(prev, j);
            lemma_relink_unlink(prev, j);
            reveal(State::relink);
            assert(prev.entry_ok(j.0 as int));
            assert(t.cols[prev.col_of(j).0 as int].s == prev.cols[prev.col_of(j).0 as int].s - 1);
        }
        let cj = j.C(self);
        let cnt = cj.S(self);
        *cnt = *cnt + 1;
        j.D(self).update_u(self, DC::Ddc(j));
        j.U(self).update_d(self, DC::Ddc(j));
        self.rings = Ghost(
            Rings {
                column: self.rings@.column.update(cj.0 as int, t.column(cj).insert(t.slot(j), j)),
                ..self.rings@
            },
        );
    }
}

impl<L> State<L> {
    /// This state is what covering column `c` made of the well-formed
    /// state `s0`.
    pub open spec fn covered_from(self, s0: State<L>, c: Cf) -> bool {
        &&& s0.wf()
        &&& s0.active(c)
        &&& self == s0.cover(c)
    }
}

impl<L> Dlx<L> {
    /// Covers column `c`: takes it out of the header ring, and takes every
    /// row that passes through it out of every other column.
    pub fn cover(&mut self, c: Cf)
        requires
            old(self).m@.wf(),
            old(self).m@.active(c),
        ensures
            final(self).m@ == old(self).m@.cover(c),
            final(self).m@.wf(),
            final(self).soln == old(self).soln,
            final(self).solutions == old(self).solutions,
    {
        let ghost s0 = self.m@;
        let ghost ops = s0.cover_ops(c);
        let ghost lst = s0.column(c);
        proof {
            lemma_active_at(s0, c);
            lemma_detach(s0, c);
            lemma_cover(s0, c);
            reveal(State::detach);
        }
        let new_l = c.L(&self.m);
        c.R(&self.m).update_l(&mut self.m, new_l);
        let new_r = c.R(&self.m);
        c.L(&self.m).update_r(&mut self.m, new_r);
        self.m.rings = Ghost(
            Rings {
                header: s0.rings.header.remove(s0.rings.header.index_of(c)),
                ..self.m.rings@
            },
        );
        let ghost h = s0.detach(c);
        assert(self.m@ == h);
        let ghost mut a: int = 0;
        let ghost mut n: int = 0;
        proof {
            lemma_partial_cover(s0, c, 0);
            assert(ops.take(0) =~= Seq::<Df>::empty());
            assert(h.column_ok(c));
        }
        let mut i = c.D(&self.m);
        loop
            invariant
                s0.wf(),
                s0.active(c),
                s0.valid_cf(c),
                h == s0.detach(c),
                ops == s0.cover_ops(c),
                lst == s0.column(c),
                h.data == s0.data,
                h.cols.len() == s0.cols.len(),
                0 <= a <= lst.len(),
                n == s0.cover_ops_upto(c, a).len(),
                0 <= n <= ops.len(),
                self.m@ == h.unlink_seq(ops.take(n)),
                i == dc_at(c, lst, a),
                self.soln == old(self).soln,
                self.solutions == old(self).solutions,
            ensures
                self.m@ == s0.cover(c),
            decreases lst.len() - a,
        {
            match i {
                DC::Cdc(_) => {
                    proof {
                        assert(a == lst.len());
                        lemma_partial_cover(s0, c, n);
                    }
                    break ;
                },
                DC::Ddc(id) => {
                    let ghost r = s0.row_of[id.0 as int] as int;
                    let ghost row = s0.row(r);
                    let ghost p = s0.rings.pos[id.0 as int];
                    let ghost len = row.len() as int;
                    let ghost others = s0.row_others(id);
                    let ghost base = n;
                    let ghost mut b: int = 0;
                    proof {
                        assert(id == lst[a]);
                        assert(lst.contains(id));
                        lemma_member(s0, c, id);
                        lemma_row_others(s0, id);
                        lemma_partial_cover(s0, c, n);
                        lemma_upto_prefix(s0, c, a + 1, lst.len() as int);
                        assert(s0.entry_ok(id.0 as int));
                    }
                    let mut j = id.R(&self.m);
                    while j != id
                        invariant
                            s0.wf(),
                            s0.active(c),
                            s0.valid_cf(c),
                            h == s0.detach(c),
                            ops == s0.cover_ops(c),
                            lst == s0.column(c),
                            h.data == s0.data,
                            h.cols.len() == s0.cols.len(),
                            0 <= r < s0.rings.row.len(),
                            0 <= a < lst.len(),
                            id == lst[a],
                            s0.valid_df(id),
                            r == s0.row_of[id.0 as int] as int,
                            row == s0.row(r),
                            p == s0.rings.pos[id.0 as int],
                            len == row.len(),
                            0 <= p < len,
                            row[p] == id,
                            others == s0.row_others(id),
                            others.len() == len - 1,
                            base == s0.cover_ops_upto(c, a).len(),
                            base + others.len() == s0.cover_ops_upto(c, a + 1).len(),
                            base + others.len() <= ops.len(),
                            0 <= b <= others.len(),
                            n == base + b,
                            self.m@ == h.unlink_seq(ops.take(n)),
                            j == row[wrap(p + 1 + b, len)],
                            self.soln == old(self).soln,
                            self.solutions == old(self).solutions,
                        decreases others.len() - b,
                    {
                        proof {
                            if b == others.len() {
                                assert(wrap(p + 1 + b, len) == p);
                            }
                            lemma_cover_ops_index(s0, c, a, b);
                            lemma_partial_cover(s0, c, n);
                            assert(ops[n] == others[b]);
                            assert(others[b] == row[wrap(p + 1 + b, len)]);
                        }
                        self.m.unlink(j);
                        proof {
                            lemma_partial_cover(s0, c, n + 1);
                            assert(s0.entry_ok(j.0 as int));
                            assert(s0.place_ok(r, wrap(p + 1 + b, len)));
                        }
                        j = j.R(&self.m);
                        proof {
                            b = b + 1;
                            n = n + 1;
                        }
                    }
                    proof {
                        if b < others.len() {
                            assert(s0.place_ok(r, wrap(p + 1 + b, len)));
                            assert(s0.place_ok(r, p));
                        }
                        assert(b == others.len());
                        lemma_partial_cover(s0, c, n);
                        let t = h.unlink_seq(ops.take(n));
                        assert(t.column_ok(c));
                        assert(t.col_link_ok(c, a));
                    }
                    i = id.D(&self.m);
                    proof {
                        a = a + 1;
                    }
                },
            }
        }
    }

    /// Uncovers column `c`, which was the last to be covered: puts back
    /// what `cover` took out, in the reverse order.
    pub fn uncover(&mut self, c: Cf)
        requires
            exists|s0: State<L>| old(self).m@.covered_from(s0, c),
        ensures
            final(self).m@ == old(self).m@.uncover(c),
            final(self).m@.wf(),
            forall|s0: State<L>| old(self).m@.covered_from(s0, c) ==> final(self).m@ == s0,
            final(self).soln == old(self).soln,
            final(self).solutions == old(self).solutions,
    {
        let ghost s0 = choose|s0: State<L>| old(self).m@.covered_from(s0, c);
        let ghost ops = s0.cover_ops(c);
        let ghost lst = s0.column(c);
        let ghost h = s0.detach(c);
        let ghost mut a: int = lst.len() as int;
        let ghost mut n: int = ops.len() as int;
        proof {
            lemma_active_at(s0, c);
            lemma_detach(s0, c);
            lemma_uncover_cover(s0, c);
            assert forall|s1: State<L>| old(self).m@.covered_from(s1, c) implies s1 == s0 by {
                lemma_uncover_cover(s1, c);
            }
            lemma_partial_cover(s0, c, n);
            let t = h.unlink_seq(ops.take(n));
            assert(t.column_ok(c));
        }
        let mut i = c.U(&self.m);
        loop
            invariant
                s0.wf(),
                s0.active(c),
                s0.valid_cf(c),
                h == s0.detach(c),
                ops == s0.cover_ops(c),
                lst == s0.column(c),
                h.data == s0.data,
                h.cols.len() == s0.cols.len(),
                0 <= a <= lst.len(),
                n == s0.cover_ops_upto(c, a).len(),
                0 <= n <= ops.len(),
                self.m@ == h.unlink_seq(ops.take(n)),
                i == dc_at(c, lst, a - 1),
                self.soln == old(self).soln,
                self.solutions == old(self).solutions,
            ensures
                self.m@ == h,
            decreases a,
        {
            match i {
                DC::Cdc(_) => {
                    proof {
                        assert(a == 0);
                        assert(ops.take(0) =~= Seq::<Df>::empty());
                    }
                    break ;
                },
                DC::Ddc(id) => {
                    let ghost r = s0.row_of[id.0 as int] as int;
                    let ghost row = s0.row(r);
                    let ghost p = s0.rings.pos[id.0 as int];
                    let ghost len = row.len() as int;
                    let ghost others = s0.row_others(id);
                    let ghost base = s0.cover_ops_upto(c, a - 1).len() as int;
                    let ghost mut b: int = others.len() as int;
                    proof {
                        assert(id == lst[a - 1]);
                        assert(lst.contains(id));
                        lemma_member(s0, c, id);
                        lemma_row_others(s0, id);
                        lemma_partial_cover(s0, c, n);
                        lemma_upto_prefix(s0, c, a, lst.len() as int);
                        assert(s0.entry_ok(id.0 as int));
                        assert(wrap(p + b, len) == prev_pos(p, len));
                    }
                    let mut j = id.L(&self.m);
                    while j != id
                        invariant
                            s0.wf(),
                            s0.active(c),
                            s0.valid_cf(c),
                            h == s0.detach(c),
                            ops == s0.cover_ops(c),
                            lst == s0.column(c),
                            h.data == s0.data,
                            h.cols.len() == s0.cols.len(),
                            0 <= r < s0.rings.row.len(),
                            0 < a <= lst.len(),
                            id == lst[a - 1],
                            s0.valid_df(id),
                            r == s0.row_of[id.0 as int] as int,
                            row == s0.row(r),
                            p == s0.rings.pos[id.0 as int],
                            len == row.len(),
                            0 <= p < len,
                            row[p] == id,
                            others == s0.row_others(id),
                            others.len() == len - 1,
                            base == s0.cover_ops_upto(c, a - 1).len(),
                            base + others.len() == s0.cover_ops_upto(c, a).len(),
                            base + others.len() <= ops.len(),
                            0 <= b <= others.len(),
                            n == base + b,
                            self.m@ == h.unlink_seq(ops.take(n)),
                            j == row[wrap(p + b, len)],
                            self.soln == old(self).soln,
                            self.solutions == old(self).solutions,
                        decreases b,
                    {
                        proof {
                            if b == 0 {
                                assert(wrap(p + b, len) == p);
                            }
                            lemma_cover_ops_index(s0, c, a - 1, b - 1);
                            lemma_partial_cover(s0, c, n - 1);
                            assert(ops[n - 1] == others[b - 1]);
                            assert(others[b - 1] == row[wrap(p + 1 + (b - 1), len)]);
                            assert(s0.entry_ok(j.0 as int));
                            assert(s0.place_ok(r, wrap(p + b, len)));
                        }
                        self.m.relink(j, Ghost(h.unlink_seq(ops.take(n - 1))));
                        j = j.L(&self.m);
                        proof {
                            b = b - 1;
                            n = n - 1;
                        }
                    }
                    proof {
                        if b > 0 {
                            assert(s0.place_ok(r, wrap(p + b, len)));
                            assert(s0.place_ok(r, p));
                        }
                        assert(b == 0);
                        lemma_partial_cover(s0, c, n);
                        let t = h.unlink_seq(ops.take(n));
                        assert(t.column_ok(c));
                        assert(t.col_link_ok(c, a - 1));
                    }
                    i = id.U(&self.m);
                    proof {
                        a = a - 1;
                    }
                },
            }
        }
        proof {
            reveal(State::attach);
            lemma_active_at(s0, c);
            lemma_detach_fields(s0, c);
        }
        c.R(&self.m).update_l(&mut self.m, CR::Ccr(c));
        c.L(&self.m).update_r(&mut self.m, CR::Ccr(c));
        self.m.rings = Ghost(
            Rings { header: h.rings.header.insert(h.header_slot(c), c), ..self.m.rings@ },
        );
        assert(self.m@ == h.attach(c));
    }
}

} // verus!
