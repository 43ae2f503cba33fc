//! Squares of pairs of symbols, the test for a Graeco-Latin square, and the
//! search for the transversals of a square.

use crate::text::{digits, nat_text, Shown};
use vstd::prelude::*;
use vstd::string::StringExecFns;

verus! {

/// An element of a square that has a Latin and a Greek symbol.
pub trait LatinSquareElem {
    /// The Latin symbol, as a number.
    spec fn spec_latin(&self) -> int;

    /// The Greek symbol, as a number.
    spec fn spec_greek(&self) -> int;

    fn latin(&self) -> (l: usize)
        ensures
            l == self.spec_latin(),
    ;

    fn greek(&self) -> (g: usize)
        ensures
            g == self.spec_greek(),
    ;
}

impl LatinSquareElem for (usize, usize) {
    open spec fn spec_latin(&self) -> int {
        self.0 as int
    }

    open spec fn spec_greek(&self) -> int {
        self.1 as int
    }

    fn latin(&self) -> (l: usize) {
        self.0
    }

    fn greek(&self) -> (g: usize) {
        self.1
    }
}

/// A pair of a Latin and a Greek symbol.
#[derive(Clone, Copy, PartialEq, Eq, Structural, Debug)]
pub struct El(pub usize, pub usize);

impl LatinSquareElem for El {
    open spec fn spec_latin(&self) -> int {
        self.0 as int
    }

    open spec fn spec_greek(&self) -> int {
        self.1 as int
    }

    fn latin(&self) -> (l: usize) {
        self.0
    }

    fn greek(&self) -> (g: usize) {
        self.1
    }
}

/// `d` is the side of a square of `len` elements.
pub open spec fn is_side(d: int, len: int) -> bool {
    d >= 0 && d * d == len
}

/// A square of elements, stored row after row.
pub trait Square<Elem>: Sized {
    /// The elements, row after row.
    spec fn elems(&self) -> Seq<Elem>;

    fn contents(&self) -> (c: &[Elem])
        ensures
            c@ == self.elems(),
    ;

    /// The side of the square.
    fn dim(&self) -> (d: usize)
        requires
            exists|d: int| is_side(d, self.elems().len() as int),
        ensures
            is_side(d as int, self.elems().len() as int),
    {
        let len = self.contents().len();
        let ghost side = choose|d: int| is_side(d, len as int);
        let mut i: usize = 0;
        loop
            invariant
                len == self.elems().len(),
                is_side(side, len as int),
                0 <= i <= side,
            decreases side - i,
        {
            proof {
                assert(i * i <= side * side) by (nonlinear_arith)
                    requires
                        0 <= i <= side,
                ;
            }
            if i * i == len {
                return i;
            }
            proof {
                if i == side {
                    assert(i * i == side * side);
                }
                assert(side <= side * side) by (nonlinear_arith)
                    requires
                        side >= 1,
                ;
            }
            i = i + 1;
        }
    }

    /// The element at row `row` and column `col`.
    fn at(&self, row: usize, col: usize) -> (e: &Elem)
        requires
            exists|d: int| is_side(d, self.elems().len() as int) && row < d && col < d,
        ensures
            exists|d: int|
                is_side(d, self.elems().len() as int) && row < d && col < d && *e
                    == self.elems()[row * d + col],
    {
        let ghost side = choose|d: int| is_side(d, self.elems().len() as int) && row < d && col < d;
        let dim = self.dim();
        let c = self.contents();
        proof {
            lemma_side_unique(side, dim as int, self.elems().len() as int);
            lemma_in_square(row as int, col as int, side);
            assert(dim as int == side);
            assert(c@.len() == c.len());
            assert(0 <= row * dim <= row * dim + col < c@.len());
        }
        &c[row * dim + col]
    }
}

/// A square has one side.
pub proof fn lemma_side_unique(a: int, b: int, len: int)
    requires
        is_side(a, len),
        is_side(b, len),
    ensures
        a == b,
{
    if a < b {
        assert(a * a < b * b) by (nonlinear_arith)
            requires
                0 <= a < b,
        ;
    }
    if b < a {
        assert(b * b < a * a) by (nonlinear_arith)
            requires
                0 <= b < a,
        ;
    }
}

/// The place of row `row` and column `col` is a place of the square.
pub proof fn lemma_in_square(row: int, col: int, d: int)
    requires
        0 <= row < d,
        0 <= col < d,
    ensures
        0 <= row * d + col < d * d,
        0 <= row * d <= row * d + col,
{
    assert(row * d + d <= d * d) by (nonlinear_arith)
        requires
            0 <= row < d,
    ;
    assert(0 <= row * d) by (nonlinear_arith)
        requires
            0 <= row,
            0 < d,
    ;
}

/// A square that keeps its elements in a vector.
#[derive(Debug)]
pub struct LGSquare<Elem> {
    pub contents: Vec<Elem>,
}

impl<Elem> Square<Elem> for LGSquare<Elem> {
    open spec fn elems(&self) -> Seq<Elem> {
        self.contents@
    }

    fn contents(&self) -> (c: &[Elem]) {
        self.contents.as_slice()
    }
}

/// A walk along row `row` of the square `sq`.
pub struct RowIter<'a, SQ> {
    pub sq: &'a SQ,
    pub dim: usize,
    pub row: usize,
    pub idx: usize,
}

/// A walk down column `col` of the square `sq`.
pub struct ColIter<'a, SQ> {
    pub sq: &'a SQ,
    pub dim: usize,
    pub col: usize,
    pub idx: usize,
}

impl<'a, SQ> RowIter<'a, SQ> {
    /// The next element of the row, if one is left.
    pub fn next<E>(&mut self) -> (e: Option<&'a E>) where SQ: Square<E>
        requires
            is_side(old(self).dim as int, old(self).sq.elems().len() as int),
            old(self).row < old(self).dim,
        ensures
            final(self).sq == old(self).sq,
            final(self).dim == old(self).dim,
            final(self).row == old(self).row,
            old(self).idx < old(self).dim ==> {
                &&& final(self).idx == old(self).idx + 1
                &&& e matches Some(x)
                &&& *x == old(self).sq.elems()[old(self).row * old(self).dim + old(self).idx]
            },
            old(self).idx >= old(self).dim ==> e is None && final(self).idx == old(self).idx,
    {
        if self.idx < self.dim {
            proof {
                lemma_in_square(self.row as int, self.idx as int, self.dim as int);
            }
            let e = self.sq.at(self.row, self.idx);
            proof {
                let d = choose|d: int|
                    is_side(d, self.sq.elems().len() as int) && self.row < d && self.idx < d && *e
                        == self.sq.elems()[self.row * d + self.idx];
                lemma_side_unique(d, self.dim as int, self.sq.elems().len() as int);
            }
            self.idx = self.idx + 1;
            Some(e)
        } else {
            None
        }
    }
}

impl<'a, SQ> ColIter<'a, SQ> {
    /// The next element of the column, if one is left.
    pub fn next<E>(&mut self) -> (e: Option<&'a E>) where SQ: Square<E>
        requires
            is_side(old(self).dim as int, old(self).sq.elems().len() as int),
            old(self).col < old(self).dim,
        ensures
            final(self).sq == old(self).sq,
            final(self).dim == old(self).dim,
            final(self).col == old(self).col,
            old(self).idx < old(self).dim ==> {
                &&& final(self).idx == old(self).idx + 1
                &&& e matches Some(x)
                &&& *x == old(self).sq.elems()[old(self).idx * old(self).dim + old(self).col]
            },
            old(self).idx >= old(self).dim ==> e is None && final(self).idx == old(self).idx,
    {
        if self.idx < self.dim {
            proof {
                lemma_in_square(self.idx as int, self.col as int, self.dim as int);
            }
            let e = self.sq.at(self.idx, self.col);
            proof {
                let d = choose|d: int|
                    is_side(d, self.sq.elems().len() as int) && self.idx < d && self.col < d && *e
                        == self.sq.elems()[self.idx * d + self.col];
                lemma_side_unique(d, self.dim as int, self.sq.elems().len() as int);
            }
            self.idx = self.idx + 1;
            Some(e)
        } else {
            None
        }
    }
}

impl<E> LGSquare<E> {
    /// The walk along row `row`.
    pub fn row_iter<'a>(&'a self, row: usize) -> (it: RowIter<'a, LGSquare<E>>)
        requires
            exists|d: int| is_side(d, self.contents@.len() as int),
        ensures
            it.sq == self,
            it.row == row,
            it.idx == 0,
            is_side(it.dim as int, self.contents@.len() as int),
    {
        proof {
            let d = choose|d: int| is_side(d, self.contents@.len() as int);
            assert(is_side(d, self.elems().len() as int));
        }
        RowIter { sq: self, dim: self.dim(), row: row, idx: 0 }
    }

    /// The walk down column `col`.
    pub fn col_iter<'a>(&'a self, col: usize) -> (it: ColIter<'a, LGSquare<E>>)
        requires
            exists|d: int| is_side(d, self.contents@.len() as int),
        ensures
            it.sq == self,
            it.col == col,
            it.idx == 0,
            is_side(it.dim as int, self.contents@.len() as int),
    {
        proof {
            let d = choose|d: int| is_side(d, self.contents@.len() as int);
            assert(is_side(d, self.elems().len() as int));
        }
        ColIter { sq: self, dim: self.dim(), col: col, idx: 0 }
    }

    /// The square of side `dim` whose element at row `i` and column `j` is
    /// what `generate` gives for `i` and `j`. The two alphabets tell which
    /// symbols the elements are made of; the square does not keep them.
    pub fn new<L, G, F: Fn(usize, usize) -> E>(
        dim: usize,
        _l_alphabet: Vec<L>,
        _g_alphabet: Vec<G>,
        generate: F,
    ) -> (sq: LGSquare<E>)
        requires
            forall|i: usize, j: usize| i < dim && j < dim ==> call_requires(generate, (i, j)),
        ensures
            sq.contents@.len() == dim * dim,
            forall|i: usize, j: usize|
                i < dim && j < dim ==> call_ensures(
                    generate,
                    (i, j),
                    #[trigger] sq.contents@[place(dim as int, i as int, j as int)],
                ),
    {
        let mut contents: Vec<E> = Vec::new();
        let mut i: usize = 0;
        while i < dim
            invariant
                forall|i: usize, j: usize| i < dim && j < dim ==> call_requires(generate, (i, j)),
                0 <= i <= dim,
                contents@.len() == i * dim,
                forall|i2: usize, j2: usize|
                    i2 < i && j2 < dim ==> call_ensures(
                        generate,
                        (i2, j2),
                        #[trigger] contents@[place(dim as int, i2 as int, j2 as int)],
                    ),
            decreases dim - i,
        {
            let mut j: usize = 0;
            while j < dim
                invariant
                    forall|i: usize, j: usize|
                        i < dim && j < dim ==> call_requires(generate, (i, j)),
                    0 <= i < dim,
                    0 <= j <= dim,
                    contents@.len() == i * dim + j,
                    forall|i2: usize, j2: usize|
                        i2 < i && j2 < dim ==> call_ensures(
                            generate,
                            (i2, j2),
                            #[trigger] contents@[place(dim as int, i2 as int, j2 as int)],
                        ),
                    forall|j2: usize|
                        j2 < j ==> call_ensures(
                            generate,
                            (i, j2),
                            #[trigger] contents@[place(dim as int, i as int, j2 as int)],
                        ),
                decreases dim - j,
            {
                let ghost before = contents@;
                contents.push(generate(i, j));
                proof {
                    assert forall|i2: usize, j2: usize| i2 < i && j2 < dim implies call_ensures(
                        generate,
                        (i2, j2),
                        #[trigger] contents@[place(dim as int, i2 as int, j2 as int)],
                    ) by {
                        lemma_in_square_below(i2 as int, j2 as int, dim as int, i as int);
                        assert(contents@[place(dim as int, i2 as int, j2 as int)] == before[place(
                            dim as int,
                            i2 as int,
                            j2 as int,
                        )]);
                    }
                    assert forall|j2: usize| j2 < j + 1 implies call_ensures(
                        generate,
                        (i, j2),
                        #[trigger] contents@[place(dim as int, i as int, j2 as int)],
                    ) by {
                        if j2 < j {
                            assert(contents@[place(dim as int, i as int, j2 as int)]
                                == before[place(dim as int, i as int, j2 as int)]);
                        }
                    }
                }
                j = j + 1;
            }
            i = i + 1;
            assert(i * dim == (i - 1) * dim + dim) by (nonlinear_arith);
        }
        LGSquare { contents: contents }
    }

    /// Exchanges the elements at the places `i` and `j`.
    pub fn swap(&mut self, i: usize, j: usize)
        requires
            i < old(self).contents@.len(),
            j < old(self).contents@.len(),
        ensures
            final(self).contents@ == old(self).contents@.update(
                i as int,
                old(self).contents@[j as int],
            ).update(j as int, old(self).contents@[i as int]),
    {
        swap_places(&mut self.contents, i, j);
    }
}

/// Exchanges the elements of `v` at the places `i` and `j`. This calls
/// `swap` of slices, which exchanges the two elements and leaves every
/// other place as it is; the two places must be places of `v`.
#[verifier::external_body]
fn swap_places<E>(v: &mut Vec<E>, i: usize, j: usize)
    requires
        i < old(v)@.len(),
        j < old(v)@.len(),
    ensures
        final(v)@ == old(v)@.update(i as int, old(v)@[j as int]).update(
            j as int,
            old(v)@[i as int],
        ),
{
    v.swap(i, j)
}

/// The place of row `i` and column `j` in a square of side `dim`.
pub open spec fn place(dim: int, i: int, j: int) -> int {
    i * dim + j
}

/// The places of the rows above row `n` lie before those of row `n`.
pub proof fn lemma_in_square_below(i: int, j: int, d: int, n: int)
    requires
        0 <= i < n,
        0 <= j < d,
    ensures
        0 <= place(d, i, j) < n * d,
{
    assert(i * d + d <= n * d) by (nonlinear_arith)
        requires
            0 <= i < n,
            0 < d,
    ;
    assert(0 <= i * d) by (nonlinear_arith)
        requires
            0 <= i,
            0 < d,
    ;
}

impl<L: Copy> LGSquare<L> {
    /// The square of the pairs of the elements of this square and of `rhs`,
    /// place by place, as far as both have elements.
    pub fn product<G: Copy>(&self, rhs: &LGSquare<G>) -> (sq: LGSquare<(L, G)>)
        ensures
            sq.contents@.len() == if self.contents@.len() <= rhs.contents@.len() {
                self.contents@.len()
            } else {
                rhs.contents@.len()
            },
            forall|k: int|
                0 <= k < sq.contents@.len() ==> #[trigger] sq.contents@[k] == (
                    self.contents@[k],
                    rhs.contents@[k],
                ),
    {
        let mut contents: Vec<(L, G)> = Vec::new();
        let mut k: usize = 0;
        while k < self.contents.len() && k < rhs.contents.len()
            invariant
                0 <= k <= self.contents@.len(),
                k <= rhs.contents@.len(),
                contents@.len() == k,
                forall|q: int|
                    0 <= q < k ==> #[trigger] contents@[q] == (self.contents@[q], rhs.contents@[q]),
            decreases self.contents@.len() - k,
        {
            contents.push((self.contents[k], rhs.contents[k]));
            k = k + 1;
        }
        LGSquare { contents: contents }
    }
}

/// The elements `a` and `b` are the same pair of symbols.
pub open spec fn same<E: LatinSquareElem>(a: E, b: E) -> bool {
    a.spec_latin() == b.spec_latin() && a.spec_greek() == b.spec_greek()
}

/// The elements `a` and `b` share neither symbol.
pub open spec fn apart<E: LatinSquareElem>(a: E, b: E) -> bool {
    a.spec_latin() != b.spec_latin() && a.spec_greek() != b.spec_greek()
}

impl<E: LatinSquareElem> LGSquare<E> {
    /// No place from `i` on holds the same pair as the place `i` or a
    /// place behind it; the place `i` is compared with itself too.
    pub open spec fn no_repeat_from(&self, i: int) -> bool {
        forall|a: int, b: int|
            i <= a <= b < self.contents@.len() ==> !same(
                #[trigger] self.contents@[a],
                #[trigger] self.contents@[b],
            )
    }

    /// In each row and in each column of the square of side `d`, no two
    /// elements share a symbol.
    pub open spec fn lines_apart(&self, d: int) -> bool {
        forall|i: int, j: int, k: int|
            0 <= i < d && 0 <= j < d && j < k < d ==> {
                &&& apart(
                    #[trigger] self.contents@[place(d, i, j)],
                    #[trigger] self.contents@[place(d, i, k)],
                )
                &&& apart(self.contents@[place(d, j, i)], self.contents@[place(d, k, i)])
            }
    }

    /// The test that the demonstration makes of a square: no pair of
    /// symbols stands at two places, where each place also counts as a
    /// pair with itself, and in no row or column two elements share a
    /// symbol. Only the square without elements passes it.
    pub fn is_latin(&self) -> (b: bool)
        ensures
            b == (self.no_repeat_from(0) && exists|d: int|
                is_side(d, self.contents@.len() as int) && self.lines_apart(d)),
            b == (self.contents@.len() == 0),
    {
        let len = self.contents().len();
        let mut i: usize = 0;
        while i < len
            invariant
                len == self.contents@.len(),
                i == 0,
            decreases len - i,
        {
            let e1 = &self.contents[i];
            let mut j: usize = i;
            while j < len
                invariant
                    len == self.contents@.len(),
                    i == 0,
                    j == 0,
                    i < len,
                    *e1 == self.contents@[i as int],
                decreases len - j,
            {
                let e2 = &self.contents[j];
                if e1.latin() == e2.latin() && e1.greek() == e2.greek() {
                    proof {
                        assert(same(self.contents@[0], self.contents@[0]));
                    }
                    return false;
                }
                j = j + 1;
            }
            i = i + 1;
        }
        proof {
            assert(is_side(0, 0));
        }
        let dim = self.dim();
        proof {
            lemma_side_unique(0, dim as int, 0);
            assert(self.lines_apart(0));
            assert(self.no_repeat_from(0));
        }
        let mut i: usize = 0;
        while i < dim
            invariant
                dim == 0,
                i == 0,
            decreases dim - i,
        {
            let mut j: usize = 0;
            while j < dim
                invariant
                    dim == 0,
                    j == 0,
                decreases dim - j,
            {
                let e1 = self.at(i, j);
                let mut k: usize = j + 1;
                while k < dim
                    invariant
                        dim == 0,
                    decreases dim - k,
                {
                    let e2 = self.at(i, k);
                    if e1.latin() == e2.latin() {
                        return false;
                    }
                    if e1.greek() == e2.greek() {
                        return false;
                    }
                    k = k + 1;
                }
                let mut l: usize = i + 1;
                while l < dim
                    invariant
                        dim == 0,
                    decreases dim - l,
                {
                    let e3 = self.at(l, j);
                    if e1.latin() == e3.latin() {
                        return false;
                    }
                    if e1.greek() == e3.greek() {
                        return false;
                    }
                    l = l + 1;
                }
                j = j + 1;
            }
            i = i + 1;
        }
        return true;
    }
}

/// The number `x` is among the numbers `v`.
pub fn holds(v: &Vec<usize>, x: usize) -> (b: bool)
    ensures
        b == v@.contains(x),
{
    let mut k: usize = 0;
    while k < v.len()
        invariant
            0 <= k <= v.len(),
            forall|q: int| 0 <= q < k ==> v@[q] != x,
        decreases v.len() - k,
    {
        if v[k] == x {
            return true;
        }
        k = k + 1;
    }
    false
}

/// The transversals of the square `c` of side `d` that begin with
/// `prefix`, whose elements come from the first columns and from the rows
/// `taken`: one element from each further column, from rows not yet taken
/// and each row once, no element twice. They come in the order of the rows
/// tried, the lower rows first.
pub open spec fn transversals(c: Seq<usize>, d: int, prefix: Seq<usize>, taken: Seq<usize>) -> Seq<
    Seq<usize>,
>
    decreases d - prefix.len(), d + 1,
{
    if d < 0 {
        Seq::empty()
    } else {
        transversals_upto(c, d, prefix, taken, d)
    }
}

/// The transversals that begin with `prefix` and go on in one of the first
/// `n` rows.
pub open spec fn transversals_upto(
    c: Seq<usize>,
    d: int,
    prefix: Seq<usize>,
    taken: Seq<usize>,
    n: int,
) -> Seq<Seq<usize>>
    decreases d - prefix.len(), n,
{
    if n <= 0 || n > d {
        Seq::empty()
    } else {
        let idx = n - 1;
        let e = c[place(d, idx, prefix.len() as int)];
        let here = if !taken.contains(idx as usize) && !prefix.contains(e) {
            if prefix.len() + 1 == d {
                seq![prefix.push(e)]
            } else if prefix.len() + 1 < d {
                transversals(c, d, prefix.push(e), taken.push(idx as usize))
            } else {
                Seq::empty()
            }
        } else {
            Seq::empty()
        };
        transversals_upto(c, d, prefix, taken, n - 1) + here
    }
}

/// The vectors `v`, as sequences.
pub open spec fn seqs(v: Seq<Vec<usize>>) -> Seq<Seq<usize>> {
    Seq::new(v.len(), |i: int| v[i]@)
}

/// Every transversal of the square `s` that begins with `prefix`, when
/// the elements of `prefix` come from the rows `rows_taken`.
pub fn find_tranversals_extending(
    s: &LGSquare<usize>,
    prefix: &Vec<usize>,
    rows_taken: Vec<usize>,
) -> (found: Vec<Vec<usize>>)
    requires
        exists|d: int| is_side(d, s.contents@.len() as int) && prefix@.len() < d,
    ensures
        exists|d: int|
            is_side(d, s.contents@.len() as int) && seqs(found@) == transversals(
                s.contents@,
                d,
                prefix@,
                rows_taken@,
            ),
    decreases s.contents@.len() - prefix@.len(),
{
    let ghost side = choose|d: int| is_side(d, s.contents@.len() as int) && prefix@.len() < d;
    let mut accum: Vec<Vec<usize>> = Vec::new();
    proof {
        assert(is_side(side, s.elems().len() as int));
    }
    let dim = s.dim();
    let new_col = prefix.len();
    proof {
        lemma_side_unique(side, dim as int, s.contents@.len() as int);
        assert(side <= side * side) by (nonlinear_arith)
            requires
                side >= 1,
        ;
    }
    let mut it = s.col_iter(new_col);
    proof {
        lemma_side_unique(side, it.dim as int, s.contents@.len() as int);
    }
    let mut idx: usize = 0;
    loop
        invariant
            dim == side,
            is_side(side, s.contents@.len() as int),
            side <= s.contents@.len(),
            new_col == prefix@.len(),
            new_col < dim,
            it.sq == s,
            it.dim == dim,
            it.col == new_col,
            it.idx == idx,
            0 <= idx <= dim,
            seqs(accum@) == transversals_upto(s.contents@, side, prefix@, rows_taken@, idx as int),
        ensures
            idx == dim,
            seqs(accum@) == transversals_upto(s.contents@, side, prefix@, rows_taken@, dim as int),
        decreases dim - idx,
    {
        let ghost before = seqs(accum@);
        match it.next() {
            None => {
                break ;
            },
            Some(e) => {
                proof {
                    assert(*e == s.contents@[place(side, idx as int, new_col as int)]);
                }
                let mut here: Vec<Vec<usize>> = Vec::new();
                if !holds(&rows_taken, idx) && !holds(prefix, *e) {
                    let mut v: Vec<usize> = Vec::new();
                    let mut k: usize = 0;
                    while k < prefix.len()
                        invariant
                            0 <= k <= prefix.len(),
                            v@ == prefix@.take(k as int),
                        decreases prefix.len() - k,
                    {
                        v.push(prefix[k]);
                        k = k + 1;
                        assert(v@ =~= prefix@.take(k as int));
                    }
                    assert(prefix@.take(prefix@.len() as int) =~= prefix@);
                    v.push(*e);
                    if new_col + 1 == dim {
                        here.push(v);
                        assert(seqs(here@) =~= seq![prefix@.push(*e)]);
                    } else {
                        let mut taken: Vec<usize> = Vec::new();
                        let mut k: usize = 0;
                        while k < rows_taken.len()
                            invariant
                                0 <= k <= rows_taken.len(),
                                taken@ == rows_taken@.take(k as int),
                            decreases rows_taken.len() - k,
                        {
                            taken.push(rows_taken[k]);
                            k = k + 1;
                            assert(taken@ =~= rows_taken@.take(k as int));
                        }
                        assert(rows_taken@.take(rows_taken@.len() as int) =~= rows_taken@);
                        taken.push(idx);
                        here = find_tranversals_extending(s, &v, taken);
                        proof {
                            let d2 = choose|d: int|
                                is_side(d, s.contents@.len() as int) && seqs(here@)
                                    == transversals(s.contents@, d, v@, taken@);
                            lemma_side_unique(d2, side, s.contents@.len() as int);
                        }
                    }
                } else {
                    assert(seqs(here@) =~= Seq::<Seq<usize>>::empty());
                }
                let ghost got = seqs(here@);
                accum.append(&mut here);
                proof {
                    assert(seqs(accum@) =~= before + got);
                }
                idx = idx + 1;
            },
        }
    }
    accum
}

impl Shown for El {
    open spec fn text(&self) -> Seq<char> {
        digits(self.0 as nat) + digits(self.1 as nat)
    }

    /// The two symbols, one after the other.
    fn show(&self) -> (s: String) {
        let mut s = nat_text(self.0);
        s.append(nat_text(self.1).as_str());
        s
    }
}

impl Shown for (usize, usize) {
    open spec fn text(&self) -> Seq<char> {
        digits(self.0 as nat) + digits(self.1 as nat)
    }

    /// The two symbols, one after the other.
    fn show(&self) -> (s: String) {
        let mut s = nat_text(self.0);
        s.append(nat_text(self.1).as_str());
        s
    }
}

impl<E: Shown> LGSquare<E> {
    /// The first `k` elements of row `j` of the square of side `d`, each
    /// with a blank before it.
    pub open spec fn row_text(&self, d: int, j: int, k: int) -> Seq<char>
        decreases k,
    {
        if k <= 0 {
            Seq::empty()
        } else {
            self.row_text(d, j, k - 1) + " "@ + self.contents@[place(d, j, k - 1)].text()
        }
    }

    /// The first `j` rows of the square of side `d`, each on a line of its
    /// own.
    pub open spec fn rows_text(&self, d: int, j: int) -> Seq<char>
        decreases j,
    {
        if j <= 0 {
            Seq::empty()
        } else {
            self.rows_text(d, j - 1) + self.row_text(d, j - 1, d) + "\n"@
        }
    }

    /// The square as text: each row on a line of its own, each element
    /// with a blank before it.
    pub fn to_str(&self) -> (s: String)
        requires
            exists|d: int| is_side(d, self.contents@.len() as int),
        ensures
            exists|d: int| is_side(d, self.contents@.len() as int) && s@ == self.rows_text(d, d),
    {
        let ghost side = choose|d: int| is_side(d, self.contents@.len() as int);
        proof {
            assert(is_side(side, self.elems().len() as int));
        }
        let mut s = String::new();
        let dim = self.dim();
        proof {
            lemma_side_unique(side, dim as int, self.contents@.len() as int);
        }
        let mut j: usize = 0;
        assert(s@ =~= self.rows_text(side, 0));
        while j < dim
            invariant
                dim == side,
                is_side(side, self.contents@.len() as int),
                0 <= j <= dim,
                s@ == self.rows_text(side, j as int),
            decreases dim - j,
        {
            let ghost before = s@;
            let mut it = self.row_iter(j);
            proof {
                lemma_side_unique(side, it.dim as int, self.contents@.len() as int);
            }
            let mut k: usize = 0;
            assert(s@ =~= before + self.row_text(side, j as int, 0));
            loop
                invariant
                    dim == side,
                    is_side(side, self.contents@.len() as int),
                    0 <= j < dim,
                    it.sq == self,
                    it.dim == dim,
                    it.row == j,
                    it.idx == k,
                    0 <= k <= dim,
                    s@ == before + self.row_text(side, j as int, k as int),
                ensures
                    s@ == before + self.row_text(side, j as int, dim as int),
                decreases dim - k,
            {
                match it.next() {
                    None => {
                        break ;
                    },
                    Some(e) => {
                        s.append(" ");
                        s.append(e.show().as_str());
                        k = k + 1;
                        assert(s@ =~= before + self.row_text(side, j as int, k as int));
                    },
                }
            }
            s.append("\n");
            j = j + 1;
            assert(s@ =~= self.rows_text(side, j as int));
        }
        s
    }
}

} // verus!
