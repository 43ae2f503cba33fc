//! A matrix stored row after row, with the exercises on it: the saddle
//! point, the magic square, and the count of the characters of a text.

use crate::exact_cover::{cell, lemma_cell_index};
use crate::text::{char_of, int_text, decimal};
use vstd::string::{StrSliceExecFns, StringExecFns};
use vstd::prelude::*;

verus! {

/// A matrix of `rows` rows and `cols` columns; `data` holds the elements row
/// after row.
#[derive(Debug)]
pub struct Mat<T> {
    pub rows: usize,
    pub cols: usize,
    pub data: Vec<T>,
}

impl<T: Copy> Mat<T> {
    /// There is one element for each row and column.
    pub open spec fn ok(&self) -> bool {
        self.data@.len() == self.rows * self.cols
    }

    /// The element at row `i` and column `j`.
    pub open spec fn spec_get(&self, i: int, j: int) -> T {
        self.data@[cell(self.cols as int, j, i)]
    }

    pub fn get(&self, i: usize, j: usize) -> (x: T)
        requires
            self.cols * i + j < self.data.len(),
        ensures
            x == self.data@[self.cols * i + j],
    {
        assert(0 <= self.cols * i) by (nonlinear_arith);
        self.data[self.cols * i + j]
    }

    pub fn set(&mut self, i: usize, j: usize, x: T)
        requires
            old(self).cols * i + j < old(self).data.len(),
        ensures
            final(self).data@ == old(self).data@.update(old(self).cols * i + j, x),
            final(self).rows == old(self).rows,
            final(self).cols == old(self).cols,
    {
        assert(0 <= self.cols * i) by (nonlinear_arith);
        let at = self.cols * i + j;
        self.data[at] = x;
    }
}

/// The elements of a matrix of `rows` rows and `cols` columns, row after
/// row, where the element at row `i` and column `j` is what `f` gives for
/// `i` and `j`.
pub fn build_matrix_data<T: Copy, F: Fn(usize, usize) -> T>(rows: usize, cols: usize, f: &F) -> (ret:
    Vec<T>)
    requires
        forall|i: usize, j: usize| i < rows && j < cols ==> call_requires(*f, (i, j)),
    ensures
        ret@.len() == rows * cols,
        forall|i: usize, j: usize|
            i < rows && j < cols ==> call_ensures(
                *f,
                (i, j),
                #[trigger] ret@[cell(cols as int, j as int, i as int)],
            ),
{
    let mut ret: Vec<T> = Vec::new();
    let mut i: usize = 0;
    while i < rows
        invariant
            forall|i: usize, j: usize| i < rows && j < cols ==> call_requires(*f, (i, j)),
            0 <= i <= rows,
            ret@.len() == i * cols,
            forall|i2: usize, j2: usize|
                i2 < i && j2 < cols ==> call_ensures(
                    *f,
                    (i2, j2),
                    #[trigger] ret@[cell(cols as int, j2 as int, i2 as int)],
                ),
        decreases rows - i,
    {
        let mut j: usize = 0;
        while j < cols
            invariant
                forall|i: usize, j: usize| i < rows && j < cols ==> call_requires(*f, (i, j)),
                0 <= i < rows,
                0 <= j <= cols,
                ret@.len() == i * cols + j,
                forall|i2: usize, j2: usize|
                    i2 < i && j2 < cols ==> call_ensures(
                        *f,
                        (i2, j2),
                        #[trigger] ret@[cell(cols as int, j2 as int, i2 as int)],
                    ),
                forall|j2: usize|
                    j2 < j ==> call_ensures(
                        *f,
                        (i, j2),
                        #[trigger] ret@[cell(cols as int, j2 as int, i as int)],
                    ),
            decreases cols - j,
        {
            let ghost before = ret@;
            ret.push(f(i, j));
            proof {
                assert forall|i2: usize, j2: usize| i2 < i && j2 < cols implies call_ensures(
                    *f,
                    (i2, j2),
                    #[trigger] ret@[cell(cols as int, j2 as int, i2 as int)],
                ) by {
                    lemma_cell_index(j2 as int, i2 as int, cols as int, i as int);
                    assert(ret@[cell(cols as int, j2 as int, i2 as int)] == before[cell(
                        cols as int,
                        j2 as int,
                        i2 as int,
                    )]);
                }
                assert forall|j2: usize| j2 < j + 1 implies call_ensures(
                    *f,
                    (i, j2),
                    #[trigger] ret@[cell(cols as int, j2 as int, i as int)],
                ) by {
                    if j2 < j {
                        assert(ret@[cell(cols as int, j2 as int, i as int)] == before[cell(
                            cols as int,
                            j2 as int,
                            i as int,
                        )]);
                    }
                }
            }
            j = j + 1;
        }
        i = i + 1;
        assert(i * cols == (i - 1) * cols + cols) by (nonlinear_arith);
    }
    ret
}

/// The matrix of `rows` rows and `cols` columns whose element at row `i`
/// and column `j` is what `f` gives for `i` and `j`.
pub fn build_matrix<T: Copy, F: Fn(usize, usize) -> T>(rows: usize, cols: usize, f: &F) -> (ret:
    Mat<T>)
    requires
        forall|i: usize, j: usize| i < rows && j < cols ==> call_requires(*f, (i, j)),
    ensures
        ret.rows == rows,
        ret.cols == cols,
        ret.ok(),
        forall|i: usize, j: usize|
            i < rows && j < cols ==> call_ensures(
                *f,
                (i, j),
                #[trigger] ret.data@[cell(cols as int, j as int, i as int)],
            ),
{
    let mut ret = Mat { rows: rows, cols: cols, data: Vec::new() };
    ret.data = build_matrix_data(rows, cols, f);
    ret
}

/// The least of the first `n` elements of row `i`.
pub open spec fn row_min(m: Mat<isize>, i: int, n: int) -> isize
    decreases n,
{
    if n <= 1 {
        m.spec_get(i, 0)
    } else if m.spec_get(i, n - 1) < row_min(m, i, n - 1) {
        m.spec_get(i, n - 1)
    } else {
        row_min(m, i, n - 1)
    }
}

/// The greatest of the first `n` elements of column `j`.
pub open spec fn col_max(m: Mat<isize>, j: int, n: int) -> isize
    decreases n,
{
    if n <= 1 {
        m.spec_get(0, j)
    } else if m.spec_get(n - 1, j) > col_max(m, j, n - 1) {
        m.spec_get(n - 1, j)
    } else {
        col_max(m, j, n - 1)
    }
}

/// The element at row `i` and column `j` is a saddle point: the least of
/// its row and the greatest of its column.
pub open spec fn is_saddle(m: Mat<isize>, i: int, j: int) -> bool {
    &&& m.spec_get(i, j) == row_min(m, i, m.cols as int)
    &&& m.spec_get(i, j) == col_max(m, j, m.rows as int)
}

/// The least of a row is an element of the row, and none is less.
pub proof fn lemma_row_min(m: Mat<isize>, i: int, n: int)
    requires
        1 <= n,
    ensures
        forall|j: int| 0 <= j < n ==> row_min(m, i, n) <= #[trigger] m.spec_get(i, j),
        exists|j: int| 0 <= j < n && row_min(m, i, n) == m.spec_get(i, j),
    decreases n,
{
    if n > 1 {
        lemma_row_min(m, i, n - 1);
        let j0 = choose|j: int| 0 <= j < n - 1 && row_min(m, i, n - 1) == m.spec_get(i, j);
        if m.spec_get(i, n - 1) < row_min(m, i, n - 1) {
            assert(row_min(m, i, n) == m.spec_get(i, n - 1));
        } else {
            assert(row_min(m, i, n) == m.spec_get(i, j0));
        }
    } else {
        assert(row_min(m, i, n) == m.spec_get(i, 0));
    }
}

/// The greatest of a column is an element of the column, and none is
/// greater.
pub proof fn lemma_col_max(m: Mat<isize>, j: int, n: int)
    requires
        1 <= n,
    ensures
        forall|i: int| 0 <= i < n ==> col_max(m, j, n) >= #[trigger] m.spec_get(i, j),
        exists|i: int| 0 <= i < n && col_max(m, j, n) == m.spec_get(i, j),
    decreases n,
{
    if n > 1 {
        lemma_col_max(m, j, n - 1);
        let i0 = choose|i: int| 0 <= i < n - 1 && col_max(m, j, n - 1) == m.spec_get(i, j);
        if m.spec_get(n - 1, j) > col_max(m, j, n - 1) {
            assert(col_max(m, j, n) == m.spec_get(n - 1, j));
        } else {
            assert(col_max(m, j, n) == m.spec_get(i0, j));
        }
    } else {
        assert(col_max(m, j, n) == m.spec_get(0, j));
    }
}

/// The place `(i2, j2)` comes before `(i, j)` when the matrix is read row
/// after row.
pub open spec fn earlier(i2: int, j2: int, i: int, j: int) -> bool {
    i2 < i || (i2 == i && j2 < j)
}

/// The first saddle point of the matrix, read row after row, if it has
/// one.
pub fn find_a_saddle_point(m: &Mat<isize>) -> (r: Option<(usize, usize)>)
    requires
        m.ok(),
        m.rows == 0 <==> m.cols == 0,
    ensures
        match r {
            Some((i, j)) => {
                &&& i < m.rows
                &&& j < m.cols
                &&& is_saddle(*m, i as int, j as int)
                &&& forall|i2: int, j2: int|
                    0 <= i2 < m.rows && 0 <= j2 < m.cols && earlier(i2, j2, i as int, j as int)
                        ==> !#[trigger] is_saddle(*m, i2, j2)
            },
            None => forall|i2: int, j2: int|
                0 <= i2 < m.rows && 0 <= j2 < m.cols ==> !#[trigger] is_saddle(*m, i2, j2),
        },
{
    let mut row_mins: Vec<isize> = Vec::new();
    let mut col_maxs: Vec<isize> = Vec::new();
    let mut i: usize = 0;
    while i < m.rows
        invariant
            m.ok(),
            m.rows == 0 <==> m.cols == 0,
            0 <= i <= m.rows,
            row_mins@.len() == i,
            forall|q: int| 0 <= q < i ==> #[trigger] row_mins@[q] == row_min(*m, q, 1),
        decreases m.rows - i,
    {
        proof {
            lemma_cell_index(0, i as int, m.cols as int, m.rows as int);
            assert(m.cols * i == i * m.cols) by (nonlinear_arith);
        }
        row_mins.push(m.get(i, 0));
        i = i + 1;
    }
    let mut j: usize = 0;
    while j < m.cols
        invariant
            m.ok(),
            m.rows == 0 <==> m.cols == 0,
            0 <= j <= m.cols,
            col_maxs@.len() == j,
            forall|q: int| 0 <= q < j ==> #[trigger] col_maxs@[q] == col_max(*m, q, 1),
        decreases m.cols - j,
    {
        proof {
            lemma_cell_index(j as int, 0, m.cols as int, m.rows as int);
            assert(m.cols * 0 == 0) by (nonlinear_arith);
        }
        col_maxs.push(m.get(0, j));
        j = j + 1;
    }
    let mut i: usize = 0;
    while i < m.rows
        invariant
            m.ok(),
            0 <= i <= m.rows,
            row_mins@.len() == m.rows,
            col_maxs@.len() == m.cols,
            forall|q: int|
                0 <= q < m.rows ==> #[trigger] row_mins@[q] == row_min(
                    *m,
                    q,
                    if q < i {
                        if m.cols == 0 {
                            1
                        } else {
                            m.cols as int
                        }
                    } else {
                        1
                    },
                ),
            forall|q: int|
                0 <= q < m.cols ==> #[trigger] col_maxs@[q] == col_max(
                    *m,
                    q,
                    if i == 0 {
                        1
                    } else {
                        i as int
                    },
                ),
        decreases m.rows - i,
    {
        let mut j: usize = 0;
        while j < m.cols
            invariant
                m.ok(),
                0 <= i < m.rows,
                0 <= j <= m.cols,
                row_mins@.len() == m.rows,
                col_maxs@.len() == m.cols,
                forall|q: int|
                    0 <= q < m.rows ==> #[trigger] row_mins@[q] == row_min(
                        *m,
                        q,
                        if q < i {
                            if m.cols == 0 {
                                1
                            } else {
                                m.cols as int
                            }
                        } else if q == i {
                            if j == 0 {
                                1
                            } else {
                                j as int
                            }
                        } else {
                            1
                        },
                    ),
                forall|q: int|
                    0 <= q < m.cols ==> #[trigger] col_maxs@[q] == col_max(
                        *m,
                        q,
                        if q < j {
                            i + 1
                        } else if i == 0 {
                            1
                        } else {
                            i as int
                        },
                    ),
            decreases m.cols - j,
        {
            proof {
                lemma_cell_index(j as int, i as int, m.cols as int, m.rows as int);
                assert(m.cols * i == i * m.cols) by (nonlinear_arith);
            }
            let x = m.get(i, j);
            let r = row_mins[i];
            let c = col_maxs[j];
            if x < r {
                row_mins[i] = x;
            }
            if x > c {
                col_maxs[j] = x;
            }
            j = j + 1;
        }
        i = i + 1;
    }
    let mut i: usize = 0;
    while i < m.rows
        invariant
            m.ok(),
            0 <= i <= m.rows,
            m.rows > 0 ==> m.cols > 0,
            row_mins@.len() == m.rows,
            col_maxs@.len() == m.cols,
            forall|q: int|
                0 <= q < m.rows ==> #[trigger] row_mins@[q] == row_min(*m, q, m.cols as int),
            forall|q: int|
                0 <= q < m.cols ==> #[trigger] col_maxs@[q] == col_max(*m, q, m.rows as int),
            forall|i2: int, j2: int|
                0 <= i2 < i && 0 <= j2 < m.cols ==> !#[trigger] is_saddle(*m, i2, j2),
        decreases m.rows - i,
    {
        let mut j: usize = 0;
        while j < m.cols
            invariant
                m.ok(),
                0 <= i < m.rows,
                0 <= j <= m.cols,
                row_mins@.len() == m.rows,
                col_maxs@.len() == m.cols,
                forall|q: int|
                    0 <= q < m.rows ==> #[trigger] row_mins@[q] == row_min(*m, q, m.cols as int),
                forall|q: int|
                    0 <= q < m.cols ==> #[trigger] col_maxs@[q] == col_max(*m, q, m.rows as int),
                forall|i2: int, j2: int|
                    0 <= i2 < i && 0 <= j2 < m.cols ==> !#[trigger] is_saddle(*m, i2, j2),
                forall|j2: int| 0 <= j2 < j ==> !#[trigger] is_saddle(*m, i as int, j2),
            decreases m.cols - j,
        {
            proof {
                lemma_cell_index(j as int, i as int, m.cols as int, m.rows as int);
                assert(m.cols * i == i * m.cols) by (nonlinear_arith);
                lemma_row_min(*m, i as int, m.cols as int);
                lemma_col_max(*m, j as int, m.rows as int);
            }
            let x = m.get(i, j);
            let r = row_mins[i];
            let c = col_maxs[j];
            if !(r < x) && !(c > x) {
                proof {
                    assert(m.spec_get(i as int, j as int) == x);
                    assert(is_saddle(*m, i as int, j as int));
                }
                return Some((i, j));
            }
            proof {
                assert(m.spec_get(i as int, j as int) == x);
            }
            j = j + 1;
        }
        i = i + 1;
    }
    None
}

/// A vector of 256 copies of `x`; `len` is only a hint at the room to make.
pub fn filled_vec<T: Copy>(len: usize, x: T) -> (v: Vec<T>)
    ensures
        v@ == Seq::new(256, |i: int| x),
{
    let mut v: Vec<T> = Vec::with_capacity(len);
    let mut i: usize = 0;
    while i < 256
        invariant
            0 <= i <= 256,
            v@ == Seq::new(i as nat, |k: int| x),
        decreases 256 - i,
    {
        v.push(x);
        i = i + 1;
        assert(v@ =~= Seq::new(i as nat, |k: int| x));
    }
    v
}

/// How often the byte `b` stands among the first `n` bytes of `text`.
pub open spec fn occurrences(text: Seq<u8>, b: int, n: int) -> int
    decreases n,
{
    if n <= 0 {
        0
    } else {
        occurrences(text, b, n - 1) + if text[n - 1] == b {
            1int
        } else {
            0
        }
    }
}

/// No byte stands among `n` bytes more than `n` times.
pub proof fn lemma_occurrences(text: Seq<u8>, b: int, n: int)
    requires
        0 <= n,
    ensures
        0 <= occurrences(text, b, n) <= n,
    decreases n,
{
    if n > 0 {
        lemma_occurrences(text, b, n - 1);
    }
}

/// For each of the 256 bytes, how often it stands in `text`.
pub fn count_char_frequency(text: &Vec<u8>) -> (ret: Vec<usize>)
    ensures
        ret@.len() == 256,
        forall|b: int| 0 <= b < 256 ==> #[trigger] ret@[b] == occurrences(text@, b, text@.len() as int),
{
    let vlen: usize = 256;
    let mut ret = filled_vec(vlen, 0usize);
    let mut k: usize = 0;
    while k < text.len()
        invariant
            0 <= k <= text.len(),
            ret@.len() == 256,
            forall|b: int| 0 <= b < 256 ==> #[trigger] ret@[b] == occurrences(text@, b, k as int),
        decreases text.len() - k,
    {
        let i = text[k] as usize;
        proof {
            lemma_occurrences(text@, i as int, k as int);
        }
        ret[i] = ret[i] + 1;
        k = k + 1;
    }
    ret
}

/// The characters from `lo` up to `hi`, `hi` itself left out. The range
/// must not run across the gap in the characters.
pub fn char_range(lo: char, hi: char) -> (v: Vec<char>)
    requires
        hi as u32 <= 0xD800 || 0xE000 <= lo as u32,
    ensures
        v@.len() == if lo < hi {
            hi as u32 - lo as u32
        } else {
            0
        },
        forall|k: int| 0 <= k < v@.len() ==> (#[trigger] v@[k]) as u32 == lo as u32 + k,
{
    let mut v: Vec<char> = Vec::new();
    let mut i: u32 = lo as u32;
    let stop: u32 = hi as u32;
    while i < stop
        invariant
            hi as u32 <= 0xD800 || 0xE000 <= lo as u32,
            stop == hi as u32,
            lo as u32 <= i,
            lo < hi ==> i <= stop,
            lo >= hi ==> i == lo as u32,
            v@.len() == i - lo as u32,
            forall|k: int| 0 <= k < v@.len() ==> (#[trigger] v@[k]) as u32 == lo as u32 + k,
        decreases stop - i,
    {
        proof {
            vstd::utf8::char_is_scalar(hi);
            vstd::utf8::char_is_scalar(lo);
        }
        match char_of(i) {
            Some(c) => {
                v.push(c);
            },
            None => {
                assert(false);
            },
        }
        i = i + 1;
    }
    v
}

/// Those of the first `k` characters of `chars` that stand in the text
/// counted in `freq`, each with its count.
pub open spec fn counted(freq: Seq<usize>, chars: Seq<char>, k: int) -> Seq<(char, usize)>
    decreases k,
{
    if k <= 0 {
        Seq::empty()
    } else if freq[chars[k - 1] as u32 as int] != 0 {
        counted(freq, chars, k - 1).push((chars[k - 1], freq[chars[k - 1] as u32 as int]))
    } else {
        counted(freq, chars, k - 1)
    }
}

/// The characters `chars` are those from `lo` up to `hi`, `hi` left out.
pub open spec fn spans(chars: Seq<char>, lo: char, hi: char) -> bool {
    &&& chars.len() == if lo < hi {
        hi as u32 - lo as u32
    } else {
        0
    }
    &&& forall|k: int| 0 <= k < chars.len() ==> (#[trigger] chars[k]) as u32 == lo as u32 + k
}

/// The characters that stand in the text counted in `freq`, each with its
/// count, as they are printed: first the digits from 0 to 8, then the
/// small letters from a to y, then the capitals from A to Y.
pub fn print_char_frequency(freq: &Vec<usize>) -> (lines: Vec<(char, usize)>)
    requires
        freq@.len() >= 256,
    ensures
        exists|d: Seq<char>, s: Seq<char>, c: Seq<char>|
            spans(d, '0', '9') && spans(s, 'a', 'z') && spans(c, 'A', 'Z') && lines@ == counted(
                freq@,
                d,
                d.len() as int,
            ) + counted(freq@, s, s.len() as int) + counted(freq@, c, c.len() as int),
{
    let mut lines: Vec<(char, usize)> = Vec::new();
    let d = char_range('0', '9');
    let mut k: usize = 0;
    while k < d.len()
        invariant
            0 <= k <= d.len(),
            freq@.len() >= 256,
            spans(d@, '0', '9'),
            lines@ == counted(freq@, d@, k as int),
        decreases d.len() - k,
    {
        let c = d[k];
        let f = freq[c as u32 as usize];
        if f != 0 {
            lines.push((c, f));
        }
        k = k + 1;
    }
    let ghost first = lines@;
    let s = char_range('a', 'z');
    let mut k: usize = 0;
    assert(lines@ =~= first + counted(freq@, s@, 0));
    while k < s.len()
        invariant
            0 <= k <= s.len(),
            freq@.len() >= 256,
            spans(s@, 'a', 'z'),
            lines@ == first + counted(freq@, s@, k as int),
        decreases s.len() - k,
    {
        let c = s[k];
        let f = freq[c as u32 as usize];
        if f != 0 {
            lines.push((c, f));
        }
        k = k + 1;
        assert(lines@ =~= first + counted(freq@, s@, k as int));
    }
    let ghost second = lines@;
    let c = char_range('A', 'Z');
    let mut k: usize = 0;
    assert(lines@ =~= second + counted(freq@, c@, 0));
    while k < c.len()
        invariant
            0 <= k <= c.len(),
            freq@.len() >= 256,
            spans(c@, 'A', 'Z'),
            lines@ == second + counted(freq@, c@, k as int),
        decreases c.len() - k,
    {
        let x = c[k];
        let f = freq[x as u32 as usize];
        if f != 0 {
            lines.push((x, f));
        }
        k = k + 1;
        assert(lines@ =~= second + counted(freq@, c@, k as int));
    }
    lines
}

/// The state of the walk that fills a magic square: the numbers written,
/// the places written, the place to write next, and the number to write
/// there.
pub struct Walk {
    pub m: Seq<usize>,
    pub b: Seq<bool>,
    pub i: int,
    pub j: int,
    pub a: int,
}

/// One step of the walk in a square of side `n`: the number is written,
/// and the walk goes one place down and to the right, round the square,
/// unless that place is written already; then it goes two places down.
pub open spec fn walk_step(n: int, w: Walk) -> Walk {
    let m = w.m.update(n * w.i + w.j, w.a as usize);
    let b = w.b.update(n * w.i + w.j, true);
    if !b[n * ((w.i + 1) % n) + (w.j + 1) % n] {
        Walk { m, b, i: (w.i + 1) % n, j: (w.j + 1) % n, a: w.a + 1 }
    } else {
        Walk { m, b, i: (w.i + 2) % n, j: w.j, a: w.a + 1 }
    }
}

/// The walk in a square of side `n` after `c` steps: it begins below the
/// middle of the square, with the number 1.
pub open spec fn walk(n: int, c: int) -> Walk
    decreases c,
{
    if c <= 0 {
        Walk {
            m: Seq::new((n * n) as nat, |k: int| 0usize),
            b: Seq::new((n * n) as nat, |k: int| false),
            i: n / 2 + 1,
            j: n / 2,
            a: 1,
        }
    } else {
        walk_step(n, walk(n, c - 1))
    }
}

/// The walk stays in the square.
pub proof fn lemma_walk(n: int, c: int)
    requires
        n >= 3,
        0 <= c,
    ensures
        walk(n, c).m.len() == n * n,
        walk(n, c).b.len() == n * n,
        0 <= walk(n, c).i < n,
        0 <= walk(n, c).j < n,
        walk(n, c).a == c + 1,
    decreases c,
{
    if c > 0 {
        lemma_walk(n, c - 1);
        let w = walk(n, c - 1);
        lemma_cell_index(w.j, w.i, n, n);
        assert(n * w.i == w.i * n) by (nonlinear_arith);
    } else {
        assert(0 <= n * n) by (nonlinear_arith);
    }
}

/// The square of side `n` that the walk fills with the numbers from 1 to
/// `n * n`. The side is 0, or 3 or more: the walk begins below the middle.
pub fn generate_magic_square(n: usize) -> (m: Mat<usize>)
    requires
        n == 0 || n >= 3,
        n * n < usize::MAX,
    ensures
        m.rows == n,
        m.cols == n,
        m.data@ == walk(n as int, n * n).m,
{
    assert(0 <= n * n) by (nonlinear_arith);
    let zero = |_i: usize, _j: usize| -> (x: usize)
        ensures
            x == 0,
        { 0usize };
    let no = |_i: usize, _j: usize| -> (x: bool)
        ensures
            !x,
        { false };
    let mut m = build_matrix(n, n, &zero);
    let mut b = build_matrix(n, n, &no);
    proof {
        assert forall|k: int| 0 <= k < n * n implies m.data@[k] == 0 && !b.data@[k] by {
            let i = (k / (n as int)) as usize;
            let j = (k % (n as int)) as usize;
            vstd::arithmetic::div_mod::lemma_fundamental_div_mod(k, n as int);
            vstd::arithmetic::div_mod::lemma_div_pos_is_pos(k, n as int);
            assert(i < n) by {
                if i >= n {
                    assert(n * i >= n * n) by (nonlinear_arith)
                        requires
                            i >= n,
                            n >= 0,
                    ;
                }
            }
            assert(cell(n as int, j as int, i as int) == k) by (nonlinear_arith)
                requires
                    k == n * (k / (n as int)) + k % (n as int),
                    i == k / (n as int),
                    j == k % (n as int),
            ;
            assert(call_ensures(zero, (i, j), m.data@[cell(n as int, j as int, i as int)]));
            assert(call_ensures(no, (i, j), b.data@[cell(n as int, j as int, i as int)]));
        }
        assert(m.data@ =~= walk(n as int, 0).m);
        assert(b.data@ =~= walk(n as int, 0).b);
    }
    let mut i: usize = n / 2 + 1;
    let mut j: usize = n / 2;
    let mut c: usize = 0;
    let mut a: usize = 1;
    while c < n * n
        invariant
            n == 0 || n >= 3,
            n * n < usize::MAX,
            0 <= c <= n * n,
            m.rows == n,
            m.cols == n,
            b.rows == n,
            b.cols == n,
            m.data@ == walk(n as int, c as int).m,
            b.data@ == walk(n as int, c as int).b,
            i == walk(n as int, c as int).i,
            j == walk(n as int, c as int).j,
            a == walk(n as int, c as int).a,
        decreases n * n - c,
    {
        proof {
            lemma_walk(n as int, c as int);
            lemma_walk(n as int, c + 1);
            lemma_cell_index(j as int, i as int, n as int, n as int);
            assert(n * i == i * n) by (nonlinear_arith);
            let i2 = (i + 1) % (n as int);
            let j2 = (j + 1) % (n as int);
            lemma_cell_index(j2, i2, n as int, n as int);
            assert(n * i2 == i2 * n) by (nonlinear_arith);
        }
        m.set(i, j, a);
        b.set(i, j, true);
        c = c + 1;
        a = a + 1;
        if !b.get((i + 1) % n, (j + 1) % n) {
            i = (i + 1) % n;
            j = (j + 1) % n;
        } else {
            i = (i + 2) % n
        }
    }
    m
}

/// The text `content` with `fill` put before it `k` times.
pub open spec fn padded(content: Seq<char>, fill: Seq<char>, k: nat) -> Seq<char>
    decreases k,
{
    if k == 0 {
        content
    } else {
        fill + padded(content, fill, (k - 1) as nat)
    }
}

/// How many characters a text of `have` characters lacks of `len`.
pub open spec fn lack(have: nat, len: nat) -> nat {
    if have >= len {
        0
    } else {
        (len - have) as nat
    }
}

/// How often `fill` must be put before a text of `have` characters to
/// make it at least `len` characters long.
pub open spec fn pad_count(have: nat, len: nat, fill: nat) -> nat
    decreases lack(have, len),
{
    if have >= len || fill == 0 {
        0
    } else {
        1 + pad_count(have + fill, len, fill)
    }
}

/// A padded text is as long as its parts together.
pub proof fn lemma_padded_len(content: Seq<char>, fill: Seq<char>, k: nat)
    ensures
        padded(content, fill, k).len() == content.len() + k * fill.len(),
    decreases k,
{
    if k > 0 {
        lemma_padded_len(content, fill, (k - 1) as nat);
        assert(k * fill.len() == (k - 1) * fill.len() + fill.len()) by (nonlinear_arith);
    } else {
        assert(0 * fill.len() == 0) by (nonlinear_arith);
    }
}

/// The text `content` with `fill` put before it until it is at least `len`
/// characters long. The text `fill` must not be empty.
pub fn padleft(content: String, len: usize, fill: &str) -> (ret: String)
    requires
        fill@.len() > 0,
    ensures
        ret@ == padded(content@, fill@, pad_count(content@.len(), len as nat, fill@.len())),
{
    let mut ret = content;
    let ghost mut k: nat = 0;
    proof {
        lemma_padded_len(content@, fill@, 0);
    }
    while ret.as_str().unicode_len() < len
        invariant
            fill@.len() > 0,
            ret@ == padded(content@, fill@, k),
            ret@.len() == content@.len() + k * fill@.len(),
            pad_count(content@.len(), len as nat, fill@.len()) == k + pad_count(
                ret@.len(),
                len as nat,
                fill@.len(),
            ),
        decreases lack(ret@.len(), len as nat),
    {
        let mut longer = String::from_str(fill);
        longer.append(ret.as_str());
        ret = longer;
        proof {
            k = k + 1;
            lemma_padded_len(content@, fill@, k);
        }
    }
    ret
}

/// The greater of `a` and the number of characters of the longest among
/// the first `n` elements of `m`, written in decimal.
pub open spec fn widest(m: Mat<isize>, n: int, a: int) -> int
    decreases n,
{
    if n <= 0 {
        a
    } else {
        let w = widest(m, n - 1, a);
        let len = decimal(m.data@[n - 1] as int).len() as int;
        if len > w {
            len
        } else {
            w
        }
    }
}

/// The room that a cell needs so that every element of `m` fits: the
/// number of characters of the longest element, and 1 at least.
pub fn find_cell_size(m: &Mat<isize>) -> (max_size: usize)
    requires
        m.ok(),
    ensures
        max_size == widest(*m, m.data@.len() as int, 1),
{
    let mut max_size: usize = 1;
    let mut i: usize = 0;
    assert(0 * m.cols == 0) by (nonlinear_arith);
    while i < m.rows
        invariant
            m.ok(),
            0 <= i <= m.rows,
            max_size == widest(*m, i * m.cols, 1),
        decreases m.rows - i,
    {
        let mut j: usize = 0;
        while j < m.cols
            invariant
                m.ok(),
                0 <= i < m.rows,
                0 <= j <= m.cols,
                max_size == widest(*m, i * m.cols + j, 1),
            decreases m.cols - j,
        {
            proof {
                lemma_cell_index(j as int, i as int, m.cols as int, m.rows as int);
                assert(m.cols * i == i * m.cols) by (nonlinear_arith);
            }
            let rendered = int_text(m.get(i, j));
            let len = rendered.as_str().unicode_len();
            if len > max_size {
                max_size = len;
            }
            j = j + 1;
        }
        i = i + 1;
        assert(i * m.cols == (i - 1) * m.cols + m.cols) by (nonlinear_arith);
    }
    proof {
        assert(m.rows * m.cols == m.data@.len());
    }
    max_size
}

impl Mat<isize> {
    /// What is written behind the cell of row `i` and column `j`: a comma
    /// inside a row, a bar and a new line at the end of a row, and the
    /// closing bracket at the end of the last.
    pub open spec fn after_cell(&self, i: int, j: int) -> Seq<char> {
        if j + 1 < self.cols {
            ", "@
        } else if i + 1 < self.rows {
            " |\n"@
        } else {
            " ]"@
        }
    }

    /// The cell of row `i` and column `j`, written in the room `size`, with
    /// what comes behind it.
    pub open spec fn cell_text(&self, i: int, j: int, size: int) -> Seq<char> {
        let t = decimal(self.spec_get(i, j) as int);
        padded(t, " "@, pad_count(t.len(), size as nat, 1)) + self.after_cell(i, j)
    }

    /// The first `j` cells of row `i`, after the bar that begins every row
    /// but the first.
    pub open spec fn row_text(&self, i: int, j: int, size: int) -> Seq<char>
        decreases j,
    {
        if j <= 0 {
            if i > 0 {
                "| "@
            } else {
                Seq::empty()
            }
        } else {
            self.row_text(i, j - 1, size) + self.cell_text(i, j - 1, size)
        }
    }

    /// The first `i` rows.
    pub open spec fn rows_text(&self, i: int, size: int) -> Seq<char>
        decreases i,
    {
        if i <= 0 {
            Seq::empty()
        } else {
            self.rows_text(i - 1, size) + self.row_text(i - 1, self.cols as int, size)
        }
    }

    /// The matrix as text: every element in a cell of the same room, the
    /// rows between bars, and the whole in square brackets.
    pub open spec fn text(&self) -> Seq<char> {
        "[ "@ + self.rows_text(self.rows as int, widest(*self, self.data@.len() as int, 1))
    }

    /// Writes the matrix as text.
    pub fn to_str(&self) -> (ret: String)
        requires
            self.ok(),
        ensures
            ret@ == self.text(),
    {
        let cellsize = find_cell_size(self);
        let mut ret = String::from_str("[ ");
        let ghost start = ret@;
        let mut i: usize = 0;
        assert(ret@ =~= start + self.rows_text(0, cellsize as int));
        while i < self.rows
            invariant
                self.ok(),
                0 <= i <= self.rows,
                ret@ == start + self.rows_text(i as int, cellsize as int),
            decreases self.rows - i,
        {
            let ghost before = ret@;
            if i > 0 {
                ret.append("| ");
            }
            assert(ret@ =~= before + self.row_text(i as int, 0, cellsize as int));
            let mut j: usize = 0;
            while j < self.cols
                invariant
                    self.ok(),
                    0 <= i < self.rows,
                    0 <= j <= self.cols,
                    ret@ == before + self.row_text(i as int, j as int, cellsize as int),
                decreases self.cols - j,
            {
                proof {
                    lemma_cell_index(j as int, i as int, self.cols as int, self.rows as int);
                    assert(self.cols * i == i * self.cols) by (nonlinear_arith);
                    reveal_strlit(" ");
                }
                let rendered = int_text(self.get(i, j));
                ret.append(padleft(rendered, cellsize, " ").as_str());
                if j + 1 < self.cols {
                    ret.append(", ");
                } else if i + 1 < self.rows {
                    ret.append(" |\n");
                } else {
                    ret.append(" ]")
                }
                j = j + 1;
                assert(ret@ =~= before + self.row_text(i as int, j as int, cellsize as int));
            }
            i = i + 1;
            assert(ret@ =~= start + self.rows_text(i as int, cellsize as int));
        }
        ret
    }
}

} // verus!
