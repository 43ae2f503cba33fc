//! Taking one entry out of its vertical ring and putting it back: the two
//! steps that `cover` and `uncover` are made of, and what they keep.

use crate::dancing_links::{dc_at, Cf, Df, Rings, State, DC};
use vstd::prelude::*;

verus! {

impl<L> State<L> {
    /// The place in the ring of its column where entry `j` goes back: after
    /// the entry that its `u` link names, or first below the header.
    pub open spec fn slot(self, j: Df) -> int {
        match self.data[j.0 as int].u {
            DC::Cdc(_) => 0,
            DC::Ddc(up) => self.column(self.col_of(j)).index_of(up) + 1,
        }
    }

    pub open spec fn with_column(self, c: Cf, lst: Seq<Df>) -> State<L> {
        State {
            rings: Rings { column: self.rings.column.update(c.0 as int, lst), ..self.rings },
            ..self
        }
    }

    /// Entry `j` leaves the vertical ring of its column: its two neighbours
    /// are joined, the count of the column drops by one, and `j` keeps its
    /// own links.
    #[verifier::opaque]
    pub open spec fn unlink(self, j: Df) -> State<L> {
        let c = self.col_of(j);
        let s1 = self.set_dc_u(self.data[j.0 as int].d, self.data[j.0 as int].u);
        let s2 = s1.set_dc_d(s1.data[j.0 as int].u, s1.data[j.0 as int].d);
        let s3 = s2.set_s(c, (s2.cols[c.0 as int].s - 1) as usize);
        s3.with_column(c, self.column(c).remove(self.column(c).index_of(j)))
    }

    /// Entry `j` goes back between the neighbours that its own links still
    /// name, and the count of its column rises by one.
    #[verifier::opaque]
    pub open spec fn relink(self, j: Df) -> State<L> {
        let c = self.col_of(j);
        let s1 = self.set_s(c, (self.cols[c.0 as int].s + 1) as usize);
        let s2 = s1.set_dc_u(s1.data[j.0 as int].d, DC::Ddc(j));
        let s3 = s2.set_dc_d(s2.data[j.0 as int].u, DC::Ddc(j));
        s3.with_column(c, self.column(c).insert(self.slot(j), j))
    }

    /// The entries `ops` leave their rings one after another, the first
    /// first.
    pub open spec fn unlink_seq(self, ops: Seq<Df>) -> State<L>
        decreases ops.len(),
    {
        if ops.len() == 0 {
            self
        } else {
            self.unlink_seq(ops.drop_last()).unlink(ops.last())
        }
    }

    /// The entries `ops` go back into their rings one after another, the
    /// last first.
    pub open spec fn relink_seq(self, ops: Seq<Df>) -> State<L>
        decreases ops.len(),
    {
        if ops.len() == 0 {
            self
        } else {
            self.relink(ops.last()).relink_seq(ops.drop_last())
        }
    }

    /// The entries `ops` are distinct, and each is linked into its column.
    pub open spec fn can_unlink(self, ops: Seq<Df>) -> bool {
        &&& ops.no_duplicates()
        &&& forall|k: int|
            0 <= k < ops.len() ==> self.valid_df(#[trigger] ops[k]) && self.linked(ops[k])
    }

    /// State `t` differs from this one in the vertical links alone: the `u`
    /// link of `at_u` is `new_u`, the `d` link of `at_d` is `new_d`, column
    /// `c` has the count `cnt` and the ring `lst`, and all else is as here.
    pub open spec fn relinked_to(
        self,
        t: State<L>,
        at_u: DC,
        new_u: DC,
        at_d: DC,
        new_d: DC,
        c: Cf,
        cnt: int,
        lst: Seq<Df>,
    ) -> bool {
        &&& self.same_frame(t)
        &&& forall|x: Df|
            self.valid_df(x) ==> {
                &&& (#[trigger] t.data[x.0 as int]).u == if at_u == DC::Ddc(x) {
                    new_u
                } else {
                    self.data[x.0 as int].u
                }
                &&& t.data[x.0 as int].d == if at_d == DC::Ddc(x) {
                    new_d
                } else {
                    self.data[x.0 as int].d
                }
            }
        &&& forall|y: Cf|
            #![trigger t.cols[y.0 as int]]
            #![trigger t.column(y)]
            self.valid_cf(y) ==> {
                &&& t.cols[y.0 as int].u == if at_u == DC::Cdc(y) {
                    new_u
                } else {
                    self.cols[y.0 as int].u
                }
                &&& t.cols[y.0 as int].d == if at_d == DC::Cdc(y) {
                    new_d
                } else {
                    self.cols[y.0 as int].d
                }
                &&& t.cols[y.0 as int].s == if y == c {
                    cnt
                } else {
                    self.cols[y.0 as int].s as int
                }
                &&& t.column(y) == if y == c {
                    lst
                } else {
                    self.column(y)
                }
            }
    }

    /// What no step of `cover` or `uncover` changes in the entries, the rows
    /// and the header ring.
    pub open spec fn same_frame(self, t: State<L>) -> bool {
        &&& t.data.len() == self.data.len()
        &&& t.cols.len() == self.cols.len()
        &&& t.root == self.root
        &&& t.row_of == self.row_of
        &&& t.row_labels == self.row_labels
        &&& t.rings.row == self.rings.row
        &&& t.rings.pos == self.rings.pos
        &&& t.rings.header == self.rings.header
        &&& t.rings.column.len() == self.rings.column.len()
        &&& forall|d: int|
            0 <= d < self.data.len() ==> {
                &&& (#[trigger] t.data[d]).l == self.data[d].l
                &&& t.data[d].r == self.data[d].r
                &&& t.data[d].c == self.data[d].c
            }
        &&& forall|c: int|
            0 <= c < self.cols.len() ==> {
                &&& (#[trigger] t.cols[c]).l == self.cols[c].l
                &&& t.cols[c].r == self.cols[c].r
                &&& t.cols[c].c == self.cols[c].c
                &&& t.cols[c].n == self.cols[c].n
            }
    }
}

/// An entry that is linked into its column stands at one place of its ring.
pub proof fn lemma_linked_at<L>(s: State<L>, j: Df)
    requires
        s.shape_ok(),
        s.columns_ok(),
        s.valid_df(j),
        s.linked(j),
    ensures
        s.valid_cf(s.col_of(j)),
        0 <= s.column(s.col_of(j)).index_of(j) < s.column(s.col_of(j)).len(),
        s.column(s.col_of(j))[s.column(s.col_of(j)).index_of(j)] == j,
        s.data[j.0 as int].u == dc_at(
            s.col_of(j),
            s.column(s.col_of(j)),
            s.column(s.col_of(j)).index_of(j) - 1,
        ),
        s.data[j.0 as int].d == dc_at(
            s.col_of(j),
            s.column(s.col_of(j)),
            s.column(s.col_of(j)).index_of(j) + 1,
        ),
        s.cols[s.col_of(j).0 as int].s >= 1,
        s.valid_dc(s.data[j.0 as int].u),
        s.valid_dc(s.data[j.0 as int].d),
        s.data[j.0 as int].u != DC::Ddc(j),
        s.data[j.0 as int].d != DC::Ddc(j),
{
    let c = s.col_of(j);
    assert(s.entry_ok(j.0 as int));
    assert(s.column_ok(c));
    let lst = s.column(c);
    let k = lst.index_of(j);
    assert(lst[k] == j);
    assert(s.col_link_ok(c, k));
    if k + 1 < lst.len() {
        assert(s.col_link_ok(c, k + 1));
    }
    if k >= 1 {
        assert(s.col_link_ok(c, k - 1));
    }
}

/// An entry of a column's ring belongs to that column, and only to it.
pub proof fn lemma_member<L>(s: State<L>, c: Cf, x: Df)
    requires
        s.columns_ok(),
        s.valid_cf(c),
        s.column(c).contains(x),
    ensures
        s.valid_df(x),
        s.col_of(x) == c,
        s.linked(x),
{
    assert(s.column_ok(c));
    let k = s.column(c).index_of(x);
    assert(s.column(c)[k] == x);
    assert(s.col_link_ok(c, k));
}

/// What `unlink` changes, field by field.
pub proof fn lemma_unlink_fields<L>(s: State<L>, j: Df)
    requires
        s.shape_ok(),
        s.valid_df(j),
        s.valid_dc(s.data[j.0 as int].u),
        s.valid_dc(s.data[j.0 as int].d),
        s.data[j.0 as int].u != DC::Ddc(j),
        s.data[j.0 as int].d != DC::Ddc(j),
        s.cols[s.col_of(j).0 as int].s >= 1,
    ensures
        s.relinked_to(
            s.unlink(j),
            s.data[j.0 as int].d,
            s.data[j.0 as int].u,
            s.data[j.0 as int].u,
            s.data[j.0 as int].d,
            s.col_of(j),
            s.cols[s.col_of(j).0 as int].s - 1,
            s.column(s.col_of(j)).remove(s.column(s.col_of(j)).index_of(j)),
        ),
{
    reveal(State::unlink);
    let t = s.unlink(j);
    assert(s.entry_ok(j.0 as int));
    assert(s.same_frame(t));
}

/// What `relink` changes, field by field.
pub proof fn lemma_relink_fields<L>(s: State<L>, j: Df)
    requires
        s.shape_ok(),
        s.valid_df(j),
        s.valid_dc(s.data[j.0 as int].u),
        s.valid_dc(s.data[j.0 as int].d),
        s.data[j.0 as int].u != DC::Ddc(j),
        s.data[j.0 as int].d != DC::Ddc(j),
        s.cols[s.col_of(j).0 as int].s < usize::MAX,
    ensures
        s.relinked_to(
            s.relink(j),
            s.data[j.0 as int].d,
            DC::Ddc(j),
            s.data[j.0 as int].u,
            DC::Ddc(j),
            s.col_of(j),
            s.cols[s.col_of(j).0 as int].s + 1,
            s.column(s.col_of(j)).insert(s.slot(j), j),
        ),
{
    reveal(State::relink);
    let t = s.relink(j);
    assert(s.entry_ok(j.0 as int));
    assert(s.same_frame(t));
}

/// A change of vertical links alone keeps the shape, the rows and the
/// header ring.
pub proof fn lemma_frame_keeps<L>(s: State<L>, t: State<L>)
    requires
        s.shape_ok(),
        s.rows_ok(),
        s.header_ok(),
        s.same_frame(t),
    ensures
        t.shape_ok(),
        t.rows_ok(),
        t.header_ok(),
{
    assert forall|d: int| 0 <= d < t.data.len() implies #[trigger] t.entry_ok(d) by {
        assert(s.entry_ok(d));
    }
    assert forall|r: int, k: int|
        0 <= r < t.rings.row.len() && 0 <= k < t.rings.row[r].len() implies #[trigger] t.place_ok(
        r,
        k,
    ) by {
        assert(s.place_ok(r, k));
    }
    assert forall|r: int, k1: int, k2: int|
        0 <= r < t.rings.row.len() && 0 <= k1 < k2 < t.rings.row[r].len() implies #[trigger] t.apart(
        r,
        k1,
        k2,
    ) by {
        assert(s.apart(r, k1, k2));
        assert(s.place_ok(r, k1));
        assert(s.place_ok(r, k2));
    }
    assert forall|k: int| 0 <= k < t.rings.header.len() implies #[trigger] t.header_link_ok(
        k,
    ) by {
        assert(s.header_link_ok(k));
    }
}

/// The ring of a column that a step did not touch is as good as before.
pub proof fn lemma_column_kept<L>(s: State<L>, t: State<L>, c2: Cf)
    requires
        s.valid_cf(c2),
        s.column_ok(c2),
        t.data.len() >= s.data.len(),
        t.column(c2) == s.column(c2),
        t.cols[c2.0 as int].u == s.cols[c2.0 as int].u,
        t.cols[c2.0 as int].d == s.cols[c2.0 as int].d,
        t.cols[c2.0 as int].s == s.cols[c2.0 as int].s,
        forall|x: Df|
            s.valid_df(x) && s.col_of(x) == c2 ==> {
                &&& (#[trigger] t.data[x.0 as int]).u == s.data[x.0 as int].u
                &&& t.data[x.0 as int].d == s.data[x.0 as int].d
                &&& t.data[x.0 as int].c == s.data[x.0 as int].c
            },
    ensures
        t.column_ok(c2),
{
    let lst = s.column(c2);
    assert forall|m: int| 0 <= m < lst.len() implies #[trigger] t.col_link_ok(c2, m) by {
        assert(s.col_link_ok(c2, m));
        let x = lst[m];
        assert(t.data[x.0 as int].u == s.data[x.0 as int].u);
    }
}

/// Unlinking a linked entry keeps every ring circular and every count right;
/// the entry leaves the ring of its column, and no other ring changes.
pub proof fn lemma_unlink<L>(s: State<L>, j: Df)
    requires
        s.rings_ok(),
        s.valid_df(j),
        s.linked(j),
    ensures
        s.unlink(j).rings_ok(),
        s.same_frame(s.unlink(j)),
        forall|c: Cf|
            s.valid_cf(c) && c != s.col_of(j) ==> #[trigger] s.unlink(j).column(c) == s.column(c),
        s.unlink(j).column(s.col_of(j)) == s.column(s.col_of(j)).remove(
            s.column(s.col_of(j)).index_of(j),
        ),
        forall|x: Df|
            s.valid_df(x) ==> (#[trigger] s.unlink(j).linked(x) <==> s.linked(x) && x != j),
        s.unlink(j).data[j.0 as int] == s.data[j.0 as int],
{
    lemma_linked_at(s, j);
    lemma_unlink_fields(s, j);
    let c = s.col_of(j);
    let lst = s.column(c);
    let k = lst.index_of(j);
    let t = s.unlink(j);
    let lst2 = lst.remove(k);
    let up = s.data[j.0 as int].u;
    let dn = s.data[j.0 as int].d;
    lst.remove_ensures(k);
    lemma_frame_keeps(s, t);
    assert(s.column_ok(c));
    assert forall|c2: Cf| t.valid_cf(c2) implies #[trigger] t.column_ok(c2) by {
        assert(s.column_ok(c2));
        if c2 != c {
            assert(t.column(c2) == s.column(c2));
            assert forall|x: Df| s.valid_df(x) && s.col_of(x) == c2 implies {
                &&& (#[trigger] t.data[x.0 as int]).u == s.data[x.0 as int].u
                &&& t.data[x.0 as int].d == s.data[x.0 as int].d
                &&& t.data[x.0 as int].c == s.data[x.0 as int].c
            } by {
                if dn == DC::Ddc(x) {
                    assert(lst[k + 1] == x);
                    assert(s.col_link_ok(c, k + 1));
                }
                if up == DC::Ddc(x) {
                    assert(lst[k - 1] == x);
                    assert(s.col_link_ok(c, k - 1));
                }
            }
            lemma_column_kept(s, t, c2);
        } else {
            lemma_unlink_column(s, t, j);
        }
    }
    assert forall|x: Df| s.valid_df(x) implies (#[trigger] t.linked(x) <==> s.linked(x) && x
        != j) by {
        let cx = s.col_of(x);
        assert(t.col_of(x) == cx);
        assert(s.entry_ok(x.0 as int));
        if cx != c {
            assert(t.column(cx) == s.column(cx));
        } else {
            if s.linked(x) && x != j {
                let m = lst.index_of(x);
                assert(lst[m] == x);
                let m2 = if m < k {
                    m
                } else {
                    m - 1
                };
                assert(lst2[m2] == x);
            }
            if t.linked(x) {
                let m = lst2.index_of(x);
                assert(lst2[m] == x);
                let m0 = if m < k {
                    m
                } else {
                    m + 1
                };
                assert(lst[m0] == x);
            }
        }
    }
}

/// The ring that an entry left is circular again, one entry shorter.
proof fn lemma_unlink_column<L>(s: State<L>, t: State<L>, j: Df)
    requires
        s.shape_ok(),
        s.columns_ok(),
        s.valid_df(j),
        s.linked(j),
        s.relinked_to(
            t,
            s.data[j.0 as int].d,
            s.data[j.0 as int].u,
            s.data[j.0 as int].u,
            s.data[j.0 as int].d,
            s.col_of(j),
            s.cols[s.col_of(j).0 as int].s - 1,
            s.column(s.col_of(j)).remove(s.column(s.col_of(j)).index_of(j)),
        ),
    ensures
        t.column_ok(s.col_of(j)),
{
    lemma_linked_at(s, j);
    let c = s.col_of(j);
    let lst = s.column(c);
    let k = lst.index_of(j);
    let lst2 = lst.remove(k);
    let up = s.data[j.0 as int].u;
    let dn = s.data[j.0 as int].d;
    lst.remove_ensures(k);
    assert(s.column_ok(c));
    assert(t.column(c) == lst2);
    assert forall|m: int| 0 <= m < lst2.len() implies #[trigger] t.col_link_ok(c, m) by {
        let m0 = if m < k {
            m
        } else {
            m + 1
        };
        let x = lst[m0];
        assert(lst2[m] == x);
        assert(x != j);
        assert(s.col_link_ok(c, m0));
        assert(s.valid_df(x));
        if m + 1 < lst2.len() {
            assert(lst2[m + 1] == lst[if m + 1 < k {
                m + 1
            } else {
                m + 2
            }]);
        }
        if m >= 1 {
            assert(lst2[m - 1] == lst[if m - 1 < k {
                m - 1
            } else {
                m
            }]);
        }
        if up == DC::Ddc(x) {
            assert(m0 == k - 1);
        }
        if dn == DC::Ddc(x) {
            assert(m0 == k + 1);
        }
    }
    assert(lst2.no_duplicates());
    if lst2.len() > 0 {
        if k == 0 {
            assert(lst2[0] == lst[1]);
        } else {
            assert(lst2[0] == lst[0]);
        }
        if k == lst.len() - 1 {
            assert(lst2[lst2.len() - 1] == lst[k - 1]);
        } else {
            assert(lst2[lst2.len() - 1] == lst[lst.len() - 1]);
        }
    }
}

/// Relinking an entry right after it was unlinked gives back the state from
/// before, link for link and count for count.
pub proof fn lemma_relink_unlink<L>(s: State<L>, j: Df)
    requires
        s.rings_ok(),
        s.valid_df(j),
        s.linked(j),
    ensures
        s.unlink(j).relink(j) == s,
{
    lemma_linked_at(s, j);
    lemma_unlink(s, j);
    lemma_unlink_fields(s, j);
    let c = s.col_of(j);
    let lst = s.column(c);
    let k = lst.index_of(j);
    let t = s.unlink(j);
    let lst2 = lst.remove(k);
    assert(t.data[j.0 as int] == s.data[j.0 as int]);
    lemma_relink_fields(t, j);
    let r = t.relink(j);
    assert(s.column_ok(c));
    lst.remove_ensures(k);
    assert(t.column(c) == lst2);
    assert(t.slot(j) == k) by {
        if k > 0 {
            let up = lst[k - 1];
            assert(lst2[k - 1] == up);
            assert(lst2.no_duplicates());
            let q = lst2.index_of(up);
            assert(lst2[q] == up);
        }
    }
    lst2.insert_ensures(k, j);
    assert(lst2.insert(k, j) =~= lst);
    assert(r.column(c) == lst);
    assert forall|y: int| 0 <= y < s.rings.column.len() implies r.rings.column[y]
        == s.rings.column[y] by {
        let yc = Cf(y as usize);
        assert(s.valid_cf(yc));
        assert(t.cols[yc.0 as int].c == s.cols[yc.0 as int].c);
        assert(r.cols[yc.0 as int].c == t.cols[yc.0 as int].c);
        assert(r.column(yc) == if yc == c { lst } else { t.column(yc) });
    }
    assert(r.rings.column =~= s.rings.column);
    assert(r.rings =~= s.rings);
    assert forall|d: int| 0 <= d < s.data.len() implies r.data[d] == s.data[d] by {
        let x = Df(d as usize);
        assert(s.valid_df(x));
        assert(t.data[x.0 as int].u == if s.data[j.0 as int].d == DC::Ddc(x) {
            s.data[j.0 as int].u
        } else {
            s.data[x.0 as int].u
        });
        assert(r.data[x.0 as int].u == if t.data[j.0 as int].d == DC::Ddc(x) {
            DC::Ddc(j)
        } else {
            t.data[x.0 as int].u
        });
        if s.data[j.0 as int].d == DC::Ddc(x) {
            assert(lst[k + 1] == x);
            assert(s.col_link_ok(c, k + 1));
        }
        if s.data[j.0 as int].u == DC::Ddc(x) {
            assert(lst[k - 1] == x);
            assert(s.col_link_ok(c, k - 1));
        }
    }
    assert(r.data =~= s.data);
    assert forall|y: int| 0 <= y < s.cols.len() implies r.cols[y] == s.cols[y] by {
        let yc = Cf(y as usize);
        assert(s.valid_cf(yc));
        assert(t.cols[yc.0 as int].u == if s.data[j.0 as int].d == DC::Cdc(yc) {
            s.data[j.0 as int].u
        } else {
            s.cols[yc.0 as int].u
        });
        assert(r.cols[yc.0 as int].u == if t.data[j.0 as int].d == DC::Cdc(yc) {
            DC::Ddc(j)
        } else {
            t.cols[yc.0 as int].u
        });
        assert(s.column_ok(yc));
    }
    assert(r.cols =~= s.cols);
    assert(r =~= s);
}

/// Keeping the frame is transitive.
pub proof fn lemma_frame_trans<L>(s: State<L>, t: State<L>, u: State<L>)
    requires
        s.same_frame(t),
        t.same_frame(u),
    ensures
        s.same_frame(u),
{
    assert forall|d: int| 0 <= d < s.data.len() implies {
        &&& (#[trigger] u.data[d]).l == s.data[d].l
        &&& u.data[d].r == s.data[d].r
        &&& u.data[d].c == s.data[d].c
    } by {
        assert(t.data[d].l == s.data[d].l);
    }
    assert forall|c: int| 0 <= c < s.cols.len() implies {
        &&& (#[trigger] u.cols[c]).l == s.cols[c].l
        &&& u.cols[c].r == s.cols[c].r
        &&& u.cols[c].c == s.cols[c].c
        &&& u.cols[c].n == s.cols[c].n
    } by {
        assert(t.cols[c].l == s.cols[c].l);
    }
}

/// Unlinking distinct linked entries one after another keeps every ring
/// circular and every count right. Exactly those entries leave their rings,
/// and the ring of a column that holds none of them stays as it was.
pub proof fn lemma_unlink_seq<L>(s: State<L>, ops: Seq<Df>)
    requires
        s.rings_ok(),
        s.can_unlink(ops),
    ensures
        s.unlink_seq(ops).rings_ok(),
        s.same_frame(s.unlink_seq(ops)),
        forall|x: Df|
            s.valid_df(x) ==> (#[trigger] s.unlink_seq(ops).linked(x) <==> s.linked(x)
                && !ops.contains(x)),
        forall|c: Cf|
            s.valid_cf(c) && (forall|k: int| 0 <= k < ops.len() ==> s.col_of(#[trigger] ops[k]) != c)
                ==> #[trigger] s.unlink_seq(ops).column(c) == s.column(c),
        forall|k: int|
            0 <= k < ops.len() ==> s.unlink_seq(ops).data[(#[trigger] ops[k]).0 as int].c
                == s.data[ops[k].0 as int].c,
    decreases ops.len(),
{
    let t = s.unlink_seq(ops);
    if ops.len() == 0 {
        assert(s.same_frame(s));
    } else {
        let front = ops.drop_last();
        let j = ops.last();
        let tf = s.unlink_seq(front);
        assert forall|k: int| 0 <= k < front.len() implies s.valid_df(#[trigger] front[k])
            && s.linked(front[k]) by {
            assert(front[k] == ops[k]);
        }
        assert(front.no_duplicates()) by {
            assert forall|a: int, b: int| 0 <= a < front.len() && 0 <= b < front.len() && a
                != b implies front[a] != front[b] by {
                assert(front[a] == ops[a]);
                assert(front[b] == ops[b]);
            }
        }
        lemma_unlink_seq(s, front);
        assert(!front.contains(j)) by {
            if front.contains(j) {
                let a = front.index_of(j);
                assert(front[a] == ops[a]);
                assert(ops[ops.len() - 1] == j);
            }
        }
        assert(s.valid_df(j) && s.linked(j)) by {
            assert(ops[ops.len() - 1] == j);
        }
        assert(tf.linked(j));
        lemma_unlink(tf, j);
        lemma_frame_trans(s, tf, t);
        assert(tf.col_of(j) == s.col_of(j));
        assert forall|x: Df| s.valid_df(x) implies (#[trigger] t.linked(x) <==> s.linked(x)
            && !ops.contains(x)) by {
            assert(tf.linked(x) <==> s.linked(x) && !front.contains(x));
            assert(t.linked(x) <==> tf.linked(x) && x != j);
            if ops.contains(x) {
                let a = ops.index_of(x);
                if a < ops.len() - 1 {
                    assert(front[a] == x);
                }
            }
            if front.contains(x) {
                let a = front.index_of(x);
                assert(ops[a] == x);
            }
            if x == j {
                assert(ops[ops.len() - 1] == x);
            }
        }
        assert forall|c: Cf|
            s.valid_cf(c) && (forall|k: int|
                0 <= k < ops.len() ==> s.col_of(#[trigger] ops[k]) != c) implies #[trigger] t.column(
            c,
        ) == s.column(c) by {
            assert forall|k: int| 0 <= k < front.len() implies s.col_of(#[trigger] front[k])
                != c by {
                assert(front[k] == ops[k]);
            }
            assert(tf.column(c) == s.column(c));
            assert(s.col_of(ops[ops.len() - 1]) != c);
            assert(t.column(c) == tf.column(c));
        }
        assert forall|k: int| 0 <= k < ops.len() implies t.data[(#[trigger] ops[k]).0 as int].c
            == s.data[ops[k].0 as int].c by {}
    }
}

/// Relinking, last first, the entries that were unlinked one after another
/// gives back the state from before, link for link and count for count.
pub proof fn lemma_relink_seq<L>(s: State<L>, ops: Seq<Df>)
    requires
        s.rings_ok(),
        s.can_unlink(ops),
    ensures
        s.unlink_seq(ops).relink_seq(ops) == s,
    decreases ops.len(),
{
    if ops.len() > 0 {
        let front = ops.drop_last();
        let j = ops.last();
        let tf = s.unlink_seq(front);
        assert forall|k: int| 0 <= k < front.len() implies s.valid_df(#[trigger] front[k])
            && s.linked(front[k]) by {
            assert(front[k] == ops[k]);
        }
        assert(front.no_duplicates()) by {
            assert forall|a: int, b: int| 0 <= a < front.len() && 0 <= b < front.len() && a
                != b implies front[a] != front[b] by {
                assert(front[a] == ops[a]);
                assert(front[b] == ops[b]);
            }
        }
        lemma_unlink_seq(s, front);
        assert(!front.contains(j)) by {
            if front.contains(j) {
                let a = front.index_of(j);
                assert(front[a] == ops[a]);
                assert(ops[ops.len() - 1] == j);
            }
        }
        assert(s.valid_df(j) && s.linked(j)) by {
            assert(ops[ops.len() - 1] == j);
        }
        assert(tf.linked(j));
        lemma_relink_unlink(tf, j);
        lemma_relink_seq(s, front);
        assert(s.unlink_seq(ops) == tf.unlink(j));
        assert(tf.unlink(j).relink_seq(ops) == tf.unlink(j).relink(j).relink_seq(front));
    }
}

impl<L> State<L> {
    /// The `d` link of `x`.
    pub open spec fn down(self, x: DC) -> DC {
        match x {
            DC::Ddc(d) => self.data[d.0 as int].d,
            DC::Cdc(c) => self.cols[c.0 as int].d,
        }
    }

    /// Where `k` steps along the `d` links lead from the header of column
    /// `c`.
    pub open spec fn down_from(self, c: Cf, k: nat) -> DC
        decreases k,
    {
        if k == 0 {
            DC::Cdc(c)
        } else {
            self.down(self.down_from(c, (k - 1) as nat))
        }
    }
}

/// In a matrix whose rings are in order, the active count of a column is
/// the number of entries reached by following its vertical ring: the `d`
/// links lead from the header through the entries of the ring, one after
/// another, and after the last one back to the header.
pub proof fn lemma_count_is_ring<L>(s: State<L>, c: Cf, k: nat)
    requires
        s.rings_ok(),
        s.valid_cf(c),
        k <= s.cols[c.0 as int].s + 1,
    ensures
        s.cols[c.0 as int].s == s.column(c).len(),
        k >= 1 ==> s.down_from(c, k) == dc_at(c, s.column(c), k - 1),
        k == s.cols[c.0 as int].s + 1 ==> s.down_from(c, k) == DC::Cdc(c),
        1 <= k <= s.cols[c.0 as int].s ==> s.down_from(c, k) is Ddc,
    decreases k,
{
    assert(s.column_ok(c));
    if k >= 1 {
        lemma_count_is_ring(s, c, (k - 1) as nat);
        if k >= 2 {
            assert(s.col_link_ok(c, k - 2));
        }
    }
}

} // verus!
