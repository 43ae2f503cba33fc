//! Exact covers of what is left of a matrix, and the theorem of Algorithm
//! X: the search finds every exact cover, and nothing else, whichever
//! strategy chooses the columns.

use crate::cover::lemma_active_at;
use crate::dancing_links::{Cf, Df, State};
use crate::cover::lemma_one_per_row;
use crate::exact_cover::{
    lemma_set_cols, lemma_set_cols_has, lemma_set_rows, lemma_set_rows_has, set_cols, set_rows,
    BitMatrix,
};
use crate::links::lemma_member;
use crate::search::{
    found, found_rows, lemma_cover_row, lemma_row_from, lemma_row_hits_same, ColumnChoice,
};
use vstd::prelude::*;

verus! {

impl<L> State<L> {
    /// Row `r` can still be chosen: it has entries, and all of them are
    /// live.
    pub open spec fn candidate(self, r: int) -> bool {
        &&& 0 <= r < self.rings.row.len()
        &&& self.row(r).len() > 0
        &&& self.row_live(r)
    }

    /// The rows of the entries `sol`.
    pub open spec fn rows_of(self, sol: Seq<Df>) -> Set<int> {
        Set::new(
            |r: int| exists|k: int| 0 <= k < sol.len() && self.row_of[(#[trigger] sol[k]).0 as int] == r,
        )
    }

    /// Some row of `t` has an entry in column `y`.
    pub open spec fn hit_in(self, t: Set<int>, y: Cf) -> bool {
        exists|r: int| t.contains(r) && #[trigger] self.row_hits(r, y)
    }

    /// The rows `t` are an exact cover of what is left of the matrix: each
    /// is a candidate, and each column of the header ring holds an entry of
    /// exactly one of them.
    pub open spec fn exact_cover(self, t: Set<int>) -> bool {
        &&& forall|r: int| #[trigger] t.contains(r) ==> self.candidate(r)
        &&& forall|y: Cf| #[trigger] self.active(y) ==> self.hit_in(t, y)
        &&& forall|r1: int, r2: int, y: Cf|
            t.contains(r1) && t.contains(r2) && #[trigger] self.row_hits(r1, y)
                && #[trigger] self.row_hits(r2, y) ==> r1 == r2
    }

    /// Rows `r1` and `r2` have no column in common.
    pub open spec fn disjoint(self, r1: int, r2: int) -> bool {
        forall|y: Cf| !(#[trigger] self.row_hits(r1, y) && self.row_hits(r2, y))
    }

    /// The entries `sol` are `prefix` followed by one entry of each row of
    /// an exact cover of what is left of the matrix.
    pub open spec fn solves(self, prefix: Seq<Df>, sol: Seq<Df>) -> bool {
        &&& sol.len() >= prefix.len()
        &&& sol.take(prefix.len() as int) == prefix
        &&& self.exact_cover(self.rows_of(sol.skip(prefix.len() as int)))
    }
}

/// What choosing the row of a live entry does: the matrix stays well
/// formed, the columns of that row leave the header ring, the rows that
/// share a column with it stop being live, and nothing else changes in
/// which columns are linked and which rows are live.
pub proof fn lemma_choose_row<L>(s: State<L>, i: Df)
    requires
        s.wf(),
        s.entry_live(i),
    ensures
        s.choose_row(i).wf(),
        s.same_matrix(s.choose_row(i)),
        s.choose_row(i).rings.header.len() < s.rings.header.len(),
        s.candidate(s.row_of[i.0 as int] as int),
        s.row_hits(s.row_of[i.0 as int] as int, s.col_of(i)),
        forall|y: Cf| #[trigger]
            s.choose_row(i).active(y) <==> s.active(y) && !s.row_hits(
                s.row_of[i.0 as int] as int,
                y,
            ),
        forall|r2: int|
            0 <= r2 < s.rings.row.len() ==> (#[trigger] s.choose_row(i).row_live(r2)
                <==> s.row_live(r2) && s.disjoint(s.row_of[i.0 as int] as int, r2)),
        forall|r2: int, y: Cf|
            0 <= r2 < s.rings.row.len() ==> #[trigger] s.choose_row(i).row_hits(r2, y)
                == s.row_hits(r2, y),
{
    let r = s.row_of[i.0 as int] as int;
    let s2 = s.choose_row(i);
    let len = s.row_from(i).len() as int;
    lemma_row_from(s, i);
    lemma_cover_row(s, i, len);
    assert(s.entry_ok(i.0 as int));
    assert(s.row_live(r));
    assert(s.col_of(s.row(r)[s.rings.pos[i.0 as int]]) == s.col_of(i));
    assert forall|y: Cf| #[trigger] s2.active(y) <==> s.active(y) && !s.row_hits(r, y) by {
        assert(s.row_hits(r, y) <==> s.hits_upto(i, y, len));
    }
    assert forall|r2: int, y: Cf| 0 <= r2 < s.rings.row.len() implies #[trigger] s2.row_hits(
        r2,
        y,
    ) == s.row_hits(r2, y) by {
        lemma_row_hits_same(s, s2, r2, y);
    }
    assert forall|r2: int| 0 <= r2 < s.rings.row.len() implies (#[trigger] s2.row_live(r2)
        <==> s.row_live(r2) && s.disjoint(r, r2)) by {
        assert(s2.row_live(r2) <==> s.row_live(r2) && s.clear_upto(i, r2, len));
        if s.clear_upto(i, r2, len) {
            assert forall|y: Cf| !(#[trigger] s.row_hits(r, y) && s.row_hits(r2, y)) by {
                if s.row_hits(r, y) {
                    assert(s.hits_upto(i, y, len));
                    let k = choose|k: int| 0 <= k < len && #[trigger] s.col_from(i, k) == y;
                    assert(!s.row_hits(r2, s.col_from(i, k)));
                }
            }
        }
        if s.disjoint(r, r2) {
            assert forall|k: int| 0 <= k < len implies !s.row_hits(
                r2,
                #[trigger] s.col_from(i, k),
            ) by {
                let y = s.col_from(i, k);
                assert(s.hits_upto(i, y, len));
                assert(s.row_hits(r, y));
            }
        }
    }
}

/// An exact cover that holds the row of a live entry is, without that row,
/// an exact cover of what is left once the row is chosen.
pub proof fn lemma_cover_minus<L>(s: State<L>, i: Df, t: Set<int>)
    requires
        s.wf(),
        s.entry_live(i),
        s.exact_cover(t),
        t.contains(s.row_of[i.0 as int] as int),
    ensures
        s.choose_row(i).exact_cover(t.remove(s.row_of[i.0 as int] as int)),
{
    let r = s.row_of[i.0 as int] as int;
    let s2 = s.choose_row(i);
    let t2 = t.remove(r);
    lemma_choose_row(s, i);
    assert forall|r2: int| #[trigger] t2.contains(r2) implies s2.candidate(r2) by {
        assert(t.contains(r2));
        assert(s.candidate(r2));
        assert forall|y: Cf| !(#[trigger] s.row_hits(r, y) && s.row_hits(r2, y)) by {}
        assert(s.disjoint(r, r2));
        assert(s2.row_live(r2));
    }
    assert forall|y: Cf| #[trigger] s2.active(y) implies s2.hit_in(t2, y) by {
        assert(s.active(y));
        assert(s.hit_in(t, y));
        let r3 = choose|r3: int| t.contains(r3) && #[trigger] s.row_hits(r3, y);
        assert(r3 != r);
        assert(s.candidate(r3));
        assert(t2.contains(r3) && s2.row_hits(r3, y));
    }
    assert forall|r1: int, r2: int, y: Cf|
        t2.contains(r1) && t2.contains(r2) && #[trigger] s2.row_hits(r1, y)
            && #[trigger] s2.row_hits(r2, y) implies r1 == r2 by {
        assert(t.contains(r1) && t.contains(r2));
        assert(s.candidate(r1) && s.candidate(r2));
        assert(s.row_hits(r1, y) && s.row_hits(r2, y));
    }
}

/// An exact cover of what is left once the row of a live entry is chosen
/// is, together with that row, an exact cover of the matrix before.
pub proof fn lemma_cover_plus<L>(s: State<L>, i: Df, t2: Set<int>)
    requires
        s.wf(),
        s.entry_live(i),
        s.choose_row(i).exact_cover(t2),
    ensures
        !t2.contains(s.row_of[i.0 as int] as int),
        s.exact_cover(t2.insert(s.row_of[i.0 as int] as int)),
{
    let r = s.row_of[i.0 as int] as int;
    let s2 = s.choose_row(i);
    let t = t2.insert(r);
    lemma_choose_row(s, i);
    if t2.contains(r) {
        assert(s2.candidate(r));
        assert(s.disjoint(r, r));
        assert(s.row_hits(r, s.col_of(i)));
    }
    assert forall|r2: int| #[trigger] t.contains(r2) implies s.candidate(r2) by {
        if r2 != r {
            assert(t2.contains(r2));
            assert(s2.candidate(r2));
        }
    }
    assert forall|y: Cf| #[trigger] s.active(y) implies s.hit_in(t, y) by {
        if s.row_hits(r, y) {
            assert(t.contains(r));
        } else {
            assert(s2.active(y));
            assert(s2.hit_in(t2, y));
            let r3 = choose|r3: int| t2.contains(r3) && #[trigger] s2.row_hits(r3, y);
            assert(s2.candidate(r3));
            assert(t.contains(r3) && s.row_hits(r3, y));
        }
    }
    assert forall|r1: int, r2: int, y: Cf|
        t.contains(r1) && t.contains(r2) && #[trigger] s.row_hits(r1, y) && #[trigger] s.row_hits(
            r2,
            y,
        ) implies r1 == r2 by {
        if r1 != r && r2 != r {
            assert(t2.contains(r1) && t2.contains(r2));
            assert(s2.candidate(r1) && s2.candidate(r2));
            assert(s2.row_hits(r1, y) && s2.row_hits(r2, y));
        } else if r1 == r && r2 != r {
            assert(s2.candidate(r2));
            assert(s.disjoint(r, r2));
        } else if r2 == r && r1 != r {
            assert(s2.candidate(r1));
            assert(s.disjoint(r, r1));
        }
    }
}

/// An exact cover holds the row of one of the entries linked into any
/// column of the header ring.
pub proof fn lemma_cover_has_row<L>(s: State<L>, c: Cf, t: Set<int>) -> (a: int)
    requires
        s.wf(),
        s.active(c),
        s.exact_cover(t),
    ensures
        0 <= a < s.column(c).len(),
        t.contains(s.row_of[s.column(c)[a].0 as int] as int),
{
    assert(s.hit_in(t, c));
    let r = choose|r: int| t.contains(r) && #[trigger] s.row_hits(r, c);
    assert(s.candidate(r));
    let k = choose|k: int| 0 <= k < s.row(r).len() && s.col_of(#[trigger] s.row(r)[k]) == c;
    let i = s.row(r)[k];
    assert(s.live_at(r, k));
    assert(s.place_ok(r, k));
    let a = s.column(c).index_of(i);
    assert(s.column(c)[a] == i);
    a
}

/// The rows of a sequence of entries that starts with `i` are the row of
/// `i` and the rows of the rest.
pub proof fn lemma_rows_of_push<L>(s: State<L>, prefix: Seq<Df>, i: Df, sol: Seq<Df>)
    requires
        sol.len() >= prefix.len() + 1,
        sol.take(prefix.len() as int + 1) == prefix.push(i),
    ensures
        sol.take(prefix.len() as int) == prefix,
        s.rows_of(sol.skip(prefix.len() as int)) == s.rows_of(
            sol.skip(prefix.len() as int + 1),
        ).insert(s.row_of[i.0 as int] as int),
{
    let k = prefix.len() as int;
    let e1 = sol.skip(k);
    let e2 = sol.skip(k + 1);
    assert(sol.take(k) =~= prefix.push(i).take(k));
    assert(prefix.push(i).take(k) =~= prefix);
    assert(sol[k] == sol.take(k + 1)[k]);
    assert(e1[0] == i);
    let lhs = s.rows_of(e1);
    let rhs = s.rows_of(e2).insert(s.row_of[i.0 as int] as int);
    assert forall|r: int| lhs.contains(r) <==> rhs.contains(r) by {
        if lhs.contains(r) {
            let q = choose|q: int| 0 <= q < e1.len() && s.row_of[(#[trigger] e1[q]).0 as int] == r;
            if q > 0 {
                assert(e2[q - 1] == e1[q]);
            }
        }
        if s.rows_of(e2).contains(r) {
            let q = choose|q: int| 0 <= q < e2.len() && s.row_of[(#[trigger] e2[q]).0 as int] == r;
            assert(e1[q + 1] == e2[q]);
        }
        if r == s.row_of[i.0 as int] as int {
            assert(s.row_of[e1[0].0 as int] == r);
        }
    }
    assert(lhs =~= rhs);
}

/// The theorem of the search, for the search from one state: every
/// solution found is `prefix` followed by an exact cover of what is left of
/// the matrix, and every exact cover of what is left is found.
pub proof fn lemma_found<L, H: ColumnChoice<L>>(f: &H, s: State<L>, prefix: Seq<Df>)
    requires
        s.wf(),
    ensures
        forall|q: int|
            0 <= q < found(f, s, prefix).len() ==> s.solves(prefix, #[trigger] found(f, s, prefix)[q]),
        forall|t: Set<int>|
            s.exact_cover(t) ==> exists|q: int|
                0 <= q < found(f, s, prefix).len() && s.rows_of(
                    (#[trigger] found(f, s, prefix)[q]).skip(prefix.len() as int),
                ) == t,
    decreases s.rings.header.len(), 1int, 0int,
{
    let fs = found(f, s, prefix);
    let k = prefix.len() as int;
    if s.is_covered() {
        assert(fs == seq![prefix]);
        let none = s.rows_of(prefix.skip(k));
        assert(prefix.take(k) =~= prefix);
        assert forall|r: int| !none.contains(r) by {}
        assert(s.exact_cover(none)) by {
            assert forall|y: Cf| #[trigger] s.active(y) implies s.hit_in(none, y) by {
                let q = s.rings.header.index_of(y);
                assert(s.rings.header[q] == y);
            }
        }
        assert forall|t: Set<int>| s.exact_cover(t) implies exists|q: int|
            0 <= q < fs.len() && s.rows_of((#[trigger] fs[q]).skip(k)) == t by {
            assert forall|r: int| !t.contains(r) by {
                if t.contains(r) {
                    assert(s.candidate(r));
                    assert(s.live_at(r, 0));
                    let y = s.col_of(s.row(r)[0]);
                    let q = s.rings.header.index_of(y);
                    assert(s.rings.header[q] == y);
                }
            }
            assert(none =~= t);
            assert(s.rows_of(fs[0].skip(k)) == t);
        }
    } else {
        let c = f.choice(s);
        f.choice_is_active(s);
        let n = s.column(c).len() as int;
        lemma_found_rows(f, s, prefix, c, n);
        assert(fs == found_rows(f, s, prefix, c, n));
        assert forall|t: Set<int>| s.exact_cover(t) implies exists|q: int|
            0 <= q < fs.len() && s.rows_of((#[trigger] fs[q]).skip(k)) == t by {
            let a = lemma_cover_has_row(s, c, t);
            assert(s.has_row_before(t, c, n)) by {
                assert(t.contains(s.row_of[s.column(c)[a].0 as int] as int));
            }
        }
    }
}

impl<L> State<L> {
    /// The rows `t` hold the row of one of the first `a` entries of the ring
    /// of column `c`.
    pub open spec fn has_row_before(self, t: Set<int>, c: Cf, a: int) -> bool {
        exists|k: int| 0 <= k < a && t.contains(self.row_of[(#[trigger] self.column(c)[k]).0 as int] as int)
    }
}

/// The theorem of the search, for the rows of the first `a` entries of the
/// chosen column: every solution found is `prefix` followed by an exact
/// cover, and every exact cover that holds one of those rows is found.
pub proof fn lemma_found_rows<L, H: ColumnChoice<L>>(
    f: &H,
    s: State<L>,
    prefix: Seq<Df>,
    c: Cf,
    a: int,
)
    requires
        s.wf(),
        s.active(c),
        0 <= a <= s.column(c).len(),
    ensures
        forall|q: int|
            0 <= q < found_rows(f, s, prefix, c, a).len() ==> s.solves(
                prefix,
                #[trigger] found_rows(f, s, prefix, c, a)[q],
            ),
        forall|t: Set<int>|
            s.exact_cover(t) && s.has_row_before(t, c, a) ==> exists|q: int|
                0 <= q < found_rows(f, s, prefix, c, a).len() && s.rows_of(
                    (#[trigger] found_rows(f, s, prefix, c, a)[q]).skip(prefix.len() as int),
                ) == t,
    decreases s.rings.header.len(), 0int, a,
{
    let fr = found_rows(f, s, prefix, c, a);
    let k = prefix.len() as int;
    if a > 0 {
        let i = s.column(c)[a - 1];
        let r = s.row_of[i.0 as int] as int;
        let s2 = s.choose_row(i);
        let before = found_rows(f, s, prefix, c, a - 1);
        let below = found(f, s2, prefix.push(i));
        lemma_active_at(s, c);
        assert(s.column(c).contains(i));
        lemma_member(s, c, i);
        assert(s.entry_live(i));
        lemma_choose_row(s, i);
        lemma_found_rows(f, s, prefix, c, a - 1);
        lemma_found(f, s2, prefix.push(i));
        assert(fr == before + below);
        assert forall|q: int| 0 <= q < fr.len() implies s.solves(prefix, #[trigger] fr[q]) by {
            if q < before.len() {
                assert(fr[q] == before[q]);
            } else {
                let sol = below[q - before.len()];
                assert(fr[q] == sol);
                assert(s2.solves(prefix.push(i), sol));
                lemma_rows_of_push(s, prefix, i, sol);
                let t2 = s2.rows_of(sol.skip(k + 1));
                assert(t2 =~= s.rows_of(sol.skip(k + 1)));
                lemma_cover_plus(s, i, t2);
            }
        }
        assert forall|t: Set<int>| s.exact_cover(t) && s.has_row_before(t, c, a) implies exists|
            q: int,
        |
            0 <= q < fr.len() && s.rows_of((#[trigger] fr[q]).skip(k)) == t by {
            if s.has_row_before(t, c, a - 1) {
                let q = choose|q: int|
                    0 <= q < before.len() && s.rows_of((#[trigger] before[q]).skip(k)) == t;
                assert(fr[q] == before[q]);
            } else {
                let w = choose|w: int|
                    0 <= w < a && t.contains(
                        s.row_of[(#[trigger] s.column(c)[w]).0 as int] as int,
                    );
                if w < a - 1 {
                    assert(t.contains(s.row_of[s.column(c)[w].0 as int] as int));
                }
                assert(w == a - 1);
                assert(t.contains(r));
                lemma_cover_minus(s, i, t);
                let t2 = t.remove(r);
                let q2 = choose|q2: int|
                    0 <= q2 < below.len() && s2.rows_of(
                        (#[trigger] below[q2]).skip(prefix.push(i).len() as int),
                    ) == t2;
                let sol = below[q2];
                assert(s2.solves(prefix.push(i), sol));
                lemma_rows_of_push(s, prefix, i, sol);
                assert(s2.rows_of(sol.skip(k + 1)) =~= s.rows_of(sol.skip(k + 1)));
                assert(t2.insert(r) =~= t);
                assert(fr[before.len() + q2] == sol);
            }
        }
    }
}

impl<L> State<L> {
    /// Every exact cover of what is left of the matrix.
    pub open spec fn exact_covers(self) -> Set<Set<int>> {
        Set::new(|t: Set<int>| self.exact_cover(t))
    }

    /// The sets of rows that the solutions `sols` choose after their first
    /// `k` entries.
    pub open spec fn row_sets(self, sols: Seq<Seq<Df>>, k: int) -> Set<Set<int>> {
        Set::new(
            |t: Set<int>|
                exists|q: int| 0 <= q < sols.len() && self.rows_of((#[trigger] sols[q]).skip(k)) == t,
        )
    }
}

/// The sets of rows that the search finds from a well-formed matrix are the
/// exact covers of what is left of it: all of them, and nothing else.
pub proof fn lemma_found_all<L, H: ColumnChoice<L>>(f: &H, s: State<L>, prefix: Seq<Df>)
    requires
        s.wf(),
    ensures
        s.row_sets(found(f, s, prefix), prefix.len() as int) == s.exact_covers(),
{
    lemma_found(f, s, prefix);
    let fs = found(f, s, prefix);
    let k = prefix.len() as int;
    let lhs = s.row_sets(fs, k);
    let rhs = s.exact_covers();
    assert forall|t: Set<int>| lhs.contains(t) <==> rhs.contains(t) by {
        if lhs.contains(t) {
            let q = choose|q: int| 0 <= q < fs.len() && s.rows_of((#[trigger] fs[q]).skip(k)) == t;
            assert(s.solves(prefix, fs[q]));
        }
        if rhs.contains(t) {
            assert(s.exact_cover(t));
        }
    }
    assert(lhs =~= rhs);
}

/// The solutions that two strategies find from the same well-formed matrix
/// are the same sets of rows: a strategy settles the order in which the
/// solutions come, and nothing more.
pub proof fn lemma_strategies_agree<L, H1: ColumnChoice<L>, H2: ColumnChoice<L>>(
    f1: &H1,
    f2: &H2,
    s: State<L>,
    prefix: Seq<Df>,
)
    requires
        s.wf(),
    ensures
        s.row_sets(found(f1, s, prefix), prefix.len() as int) == s.row_sets(
            found(f2, s, prefix),
            prefix.len() as int,
        ),
{
    lemma_found_all(f1, s, prefix);
    lemma_found_all(f2, s, prefix);
}

/// Row `r` of the dense matrix `input` has a bit set.
pub open spec fn has_bit<M: BitMatrix>(input: &M, r: int) -> bool {
    exists|c: int| 0 <= c < input.spec_cols() && #[trigger] input.bit(c, r)
}

/// Column `c` of the dense matrix `input` has its bit set in one row of
/// `t`.
pub open spec fn met<M: BitMatrix>(input: &M, t: Set<int>, c: int) -> bool {
    exists|r: int| t.contains(r) && #[trigger] input.bit(c, r)
}

/// The rows `t` are an exact cover of the dense matrix `input`: they are
/// rows of the matrix that are not empty, and every column has its bit set
/// in exactly one of them.
pub open spec fn covers_exactly<M: BitMatrix>(input: &M, t: Set<int>) -> bool {
    &&& forall|r: int| #[trigger] t.contains(r) ==> 0 <= r < input.spec_rows() && has_bit(input, r)
    &&& forall|c: int| 0 <= c < input.spec_cols() ==> #[trigger] met(input, t, c)
    &&& forall|r1: int, r2: int, c: int|
        0 <= c < input.spec_cols() && t.contains(r1) && t.contains(r2) && #[trigger] input.bit(
            c,
            r1,
        ) && #[trigger] input.bit(c, r2) ==> r1 == r2
}

/// In the sparse matrix of a dense one, a row has an entry in a column
/// exactly where the dense matrix has the bit set, every row is live, and
/// every column is in the header ring.
pub proof fn lemma_built_hits<L, M: BitMatrix>(s: State<L>, input: &M, r: int, c: int)
    requires
        s.built_from(input),
        0 <= r < input.spec_rows(),
        0 <= c < input.spec_cols(),
        c <= usize::MAX,
    ensures
        s.row_hits(r, Cf(c as usize)) == input.bit(c, r),
        s.active(Cf(c as usize)),
{
    let nc = input.spec_cols() as int;
    let y = Cf(c as usize);
    assert(s.rings.header[c] == y);
    assert(s.row_cols(r) == set_cols(input, r, nc));
    lemma_set_cols(input, r, nc);
    if input.bit(c, r) {
        lemma_set_cols_has(input, r, nc, c);
        let k = choose|k: int| 0 <= k < set_cols(input, r, nc).len() && set_cols(input, r, nc)[k] == c;
        assert(s.row_cols(r)[k] == c);
        assert(s.place_ok(r, k));
        assert(s.entry_ok(s.row(r)[k].0 as int));
        assert(s.col_of(s.row(r)[k]) == y);
    }
    if s.row_hits(r, y) {
        let k = choose|k: int| 0 <= k < s.row(r).len() && s.col_of(#[trigger] s.row(r)[k]) == y;
        assert(s.row_cols(r)[k] == c);
        assert(set_cols(input, r, nc)[k] == c);
    }
}

/// Every row of the sparse matrix of a dense one is live.
pub proof fn lemma_built_live<L, M: BitMatrix>(s: State<L>, input: &M, r: int)
    requires
        s.built_from(input),
        0 <= r < input.spec_rows(),
    ensures
        s.row_live(r),
        s.row(r).len() > 0 <==> has_bit(input, r),
{
    let nc = input.spec_cols() as int;
    assert(s.row_cols(r) == set_cols(input, r, nc));
    lemma_set_cols(input, r, nc);
    if s.row(r).len() > 0 {
        let x = s.row(r)[0];
        assert(s.place_ok(r, 0));
        assert(s.row_cols(r)[0] == s.col_of(x).0);
        assert(input.bit(set_cols(input, r, nc)[0], r));
        assert(s.entry_live(x)) by {
            assert(s.entry_ok(x.0 as int));
            assert(s.rings.header[s.col_of(x).0 as int] == s.col_of(x));
            assert(s.column_ok(s.col_of(x)));
            lemma_built_linked(s, input, x);
        }
        assert(s.row_live(r));
    } else {
        if has_bit(input, r) {
            let c = choose|c: int| 0 <= c < input.spec_cols() && #[trigger] input.bit(c, r);
            lemma_set_cols_has(input, r, nc, c);
        }
    }
}

/// Every entry of the sparse matrix of a dense one is linked into its
/// column: no column is covered, so no row is taken out.
pub proof fn lemma_built_linked<L, M: BitMatrix>(s: State<L>, input: &M, x: Df)
    requires
        s.built_from(input),
        s.valid_df(x),
    ensures
        s.entry_live(x),
{
    let nc = input.spec_cols() as int;
    let r = s.row_of[x.0 as int] as int;
    assert(s.entry_ok(x.0 as int));
    let y = s.col_of(x);
    assert(s.rings.header[y.0 as int] == y);
    let p = s.rings.pos[x.0 as int];
    assert(s.row_cols(r) == set_cols(input, r, nc));
    lemma_set_cols(input, r, nc);
    assert(s.row_cols(r)[p] == y.0);
    assert(input.bit(y.0 as int, r));
    // the ring of the column holds an entry of this row, and a row has one
    // entry in a column
    assert(s.column_rows(y) == set_rows(input, y.0 as int, input.spec_rows() as int));
    lemma_set_rows(input, y.0 as int, input.spec_rows() as int);
    lemma_set_rows_has(input, y.0 as int, input.spec_rows() as int, r);
    let k = choose|k: int|
        0 <= k < s.column_rows(y).len() && s.column_rows(y)[k] == r;
    let z = s.column(y)[k];
    assert(s.column_ok(y));
    assert(s.col_link_ok(y, k));
    lemma_one_per_row(s, x, z);
}

/// The exact covers of the sparse matrix of a dense one are the exact
/// covers of the dense matrix.
pub proof fn lemma_built_covers<L, M: BitMatrix>(s: State<L>, input: &M, t: Set<int>)
    requires
        s.built_from(input),
    ensures
        s.exact_cover(t) == covers_exactly(input, t),
{
    let nc = input.spec_cols() as int;
    let nr = input.spec_rows() as int;
    assert(nc <= usize::MAX);
    if s.exact_cover(t) {
        assert forall|r: int| #[trigger] t.contains(r) implies 0 <= r < nr && has_bit(input, r) by {
            assert(s.candidate(r));
            lemma_built_live(s, input, r);
        }
        assert forall|c: int| 0 <= c < nc implies #[trigger] met(input, t, c) by {
            let y = Cf(c as usize);
            assert(s.rings.header[c] == y);
            assert(s.active(y));
            assert(s.hit_in(t, y));
            let r = choose|r: int| t.contains(r) && #[trigger] s.row_hits(r, y);
            assert(s.candidate(r));
            lemma_built_hits(s, input, r, c);
        }
        assert forall|r1: int, r2: int, c: int|
            0 <= c < nc && t.contains(r1) && t.contains(r2) && #[trigger] input.bit(c, r1)
                && #[trigger] input.bit(c, r2) implies r1 == r2 by {
            assert(s.candidate(r1) && s.candidate(r2));
            lemma_built_hits(s, input, r1, c);
            lemma_built_hits(s, input, r2, c);
        }
    }
    if covers_exactly(input, t) {
        assert forall|r: int| #[trigger] t.contains(r) implies s.candidate(r) by {
            lemma_built_live(s, input, r);
        }
        assert forall|y: Cf| #[trigger] s.active(y) implies s.hit_in(t, y) by {
            let k = s.rings.header.index_of(y);
            assert(s.rings.header[k] == y);
            assert(met(input, t, y.0 as int));
            let r = choose|r: int| t.contains(r) && #[trigger] input.bit(y.0 as int, r);
            lemma_built_hits(s, input, r, y.0 as int);
        }
        assert forall|r1: int, r2: int, y: Cf|
            t.contains(r1) && t.contains(r2) && #[trigger] s.row_hits(r1, y)
                && #[trigger] s.row_hits(r2, y) implies r1 == r2 by {
            let k = choose|k: int| 0 <= k < s.row(r1).len() && s.col_of(#[trigger] s.row(r1)[k]) == y;
            assert(s.place_ok(r1, k));
            assert(s.entry_ok(s.row(r1)[k].0 as int));
            lemma_built_hits(s, input, r1, y.0 as int);
            lemma_built_hits(s, input, r2, y.0 as int);
        }
    }
}

/// What the search finds in the sparse matrix of a dense one, from an empty
/// stack and with any strategy, are the exact covers of the dense matrix:
/// every selection of rows that have a bit, in which every column has its
/// bit set exactly once.
pub proof fn lemma_search_solves<L, H: ColumnChoice<L>, M: BitMatrix>(f: &H, s: State<L>, input: &M)
    requires
        s.built_from(input),
    ensures
        s.row_sets(found(f, s, Seq::empty()), 0) == Set::new(|t: Set<int>| covers_exactly(input, t)),
{
    lemma_found_all(f, s, Seq::empty());
    let lhs = s.row_sets(found(f, s, Seq::empty()), 0);
    let rhs = Set::new(|t: Set<int>| covers_exactly(input, t));
    assert forall|t: Set<int>| lhs.contains(t) <==> rhs.contains(t) by {
        lemma_built_covers(s, input, t);
        assert(s.exact_covers().contains(t) == s.exact_cover(t));
    }
    assert(lhs =~= rhs);
}

} // verus!
