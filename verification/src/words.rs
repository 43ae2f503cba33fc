//! The five-letter words of the Stanford GraphBase: reading the lines of
//! the word list, and weighing a word by its counts.

use crate::text::{digits, joined_by, nat_text, push_char};
use vstd::prelude::*;
use vstd::string::StringExecFns;

verus! {

/// A word of five letters.
#[derive(Clone, Copy, Debug)]
pub struct Key(pub [char; 5]);

/// How usual a word is.
#[derive(Clone, Copy, PartialEq, Eq, Structural, Debug)]
pub enum Class {
    Common,
    Advanced,
    Unusual,
}

/// A word with its class and its seven counts, one for each body of text
/// in which its uses were counted.
#[derive(Debug)]
pub struct Entry {
    pub word: Key,
    pub class: Class,
    pub counts: Vec<usize>,
}

/// The words read.
#[derive(Debug)]
pub struct WordsData {
    pub m: Vec<Entry>,
}

/// The weights by which a word is weighed: `a` for a common word, `b` for
/// an advanced one, and `w` for the seven counts.
#[derive(Clone, Copy, Debug)]
pub struct WtVector {
    pub a: usize,
    pub b: usize,
    pub w: [usize; 7],
}

/// The weight of a word with the class `class` and the counts `counts`
/// under the weights `wt`: each count times its weight, and the bonus of
/// the class.
pub open spec fn spec_weight(wt: WtVector, class: Class, counts: Seq<usize>) -> int {
    wt.w[0] * counts[0] + wt.w[1] * counts[1] + wt.w[2] * counts[2] + wt.w[3] * counts[3]
        + wt.w[4] * counts[4] + wt.w[5] * counts[5] + wt.w[6] * counts[6] + match class {
        Class::Common => wt.a as int,
        Class::Advanced => wt.b as int,
        Class::Unusual => 0,
    }
}

/// The sum of the first `k` counts, each times its weight.
pub open spec fn weighted(wt: WtVector, counts: Seq<usize>, k: int) -> int
    decreases k,
{
    if k <= 0 {
        0
    } else {
        weighted(wt, counts, k - 1) + wt.w[k - 1] * counts[k - 1]
    }
}

impl WtVector {
    /// The weight of the word `e`.
    pub fn weight(&self, e: &Entry) -> (wgt: usize)
        requires
            e.counts@.len() >= 7,
            spec_weight(*self, e.class, e.counts@) <= usize::MAX,
        ensures
            wgt == spec_weight(*self, e.class, e.counts@),
    {
        proof {
            assert(weighted(*self, e.counts@, 7) == self.w[0] * e.counts@[0] + self.w[1]
                * e.counts@[1] + self.w[2] * e.counts@[2] + self.w[3] * e.counts@[3] + self.w[4]
                * e.counts@[4] + self.w[5] * e.counts@[5] + self.w[6] * e.counts@[6]) by {
                reveal_with_fuel(weighted, 8);
            }
        }
        let mut sum: usize = 0;
        let mut k: usize = 0;
        while k < 7
            invariant
                0 <= k <= 7,
                e.counts@.len() >= 7,
                sum == weighted(*self, e.counts@, k as int),
                weighted(*self, e.counts@, 7) <= usize::MAX,
            decreases 7 - k,
        {
            proof {
                lemma_weighted_rises(*self, e.counts@, k as int + 1, 7);
                assert(self.w[k as int] * e.counts@[k as int] >= 0) by (nonlinear_arith);
            }
            sum = sum + self.w[k] * e.counts[k];
            k = k + 1;
        }
        sum + match e.class {
            Class::Common => self.a,
            Class::Advanced => self.b,
            Class::Unusual => 0,
        }
    }
}

/// The sum of weighted counts does not fall when more counts are added.
pub proof fn lemma_weighted_rises(wt: WtVector, counts: Seq<usize>, k: int, n: int)
    requires
        0 <= k <= n,
    ensures
        0 <= weighted(wt, counts, k) <= weighted(wt, counts, n),
    decreases n,
{
    if k < n {
        lemma_weighted_rises(wt, counts, k, n - 1);
        assert(wt.w[n - 1] * counts[n - 1] >= 0) by (nonlinear_arith);
    } else if n > 0 {
        lemma_weighted_rises(wt, counts, k - 1, n - 1);
        assert(wt.w[n - 1] * counts[n - 1] >= 0) by (nonlinear_arith);
    }
}

/// What the reading of the counts has come to: the counts stored, the
/// number being read, and the place of the next count.
pub struct Scan {
    pub counts: Seq<int>,
    pub accum: int,
    pub i: int,
}

/// The reading after one more byte: a comma stores the number read and
/// starts the next, a digit goes on with the number, and any other byte is
/// passed over.
pub open spec fn scan_step(s: Scan, c: u8) -> Scan {
    if c == 44 {
        Scan { counts: s.counts.update(s.i, s.accum), accum: 0, i: s.i + 1 }
    } else if 48 <= c <= 57 {
        Scan { accum: s.accum * 10 + (c - 48), ..s }
    } else {
        s
    }
}

/// The reading after the first `k` bytes of `rest`.
pub open spec fn scan(rest: Seq<u8>, k: int) -> Scan
    decreases k,
{
    if k <= 0 {
        Scan { counts: seq![0int, 0, 0, 0, 0, 0, 0], accum: 0, i: 0 }
    } else {
        scan_step(scan(rest, k - 1), rest[k - 1])
    }
}

/// The counts in `rest` can be read: no number is too large for the
/// machine, and no comma comes when seven counts are stored.
pub open spec fn readable(rest: Seq<u8>) -> bool {
    forall|k: int|
        0 <= k <= rest.len() ==> {
            &&& (#[trigger] scan(rest, k)).accum <= usize::MAX
            &&& k < rest.len() && rest[k] == 44 ==> scan(rest, k).i < 7
        }
}

/// The line is one that `words_from` can read: a comment, which begins
/// with a star, or a word of five plain letters, then nothing or the sign
/// of its class and its counts.
pub open spec fn line_ok(line: Seq<u8>) -> bool {
    &&& line.len() >= 1
    &&& line[0] != 42 ==> {
        &&& line.len() >= 5
        &&& forall|k: int| 0 <= k < 5 ==> #[trigger] line[k] < 128
        &&& line.len() > 5 ==> {
            &&& line[5] == 42 || line[5] == 43 || line[5] == 32
            &&& readable(line.skip(6))
        }
    }
}

/// The class that the line gives its word.
pub open spec fn line_class(line: Seq<u8>) -> Class {
    if line.len() <= 5 {
        Class::Unusual
    } else if line[5] == 42 {
        Class::Common
    } else if line[5] == 43 {
        Class::Advanced
    } else {
        Class::Unusual
    }
}

/// The counts that the line gives its word.
pub open spec fn line_counts(line: Seq<u8>) -> Seq<int> {
    if line.len() <= 5 {
        seq![0int, 0, 0, 0, 0, 0, 0]
    } else {
        scan(line.skip(6), line.len() - 6).counts
    }
}

/// The entry `e` is what the line says.
pub open spec fn entry_of(line: Seq<u8>, e: Entry) -> bool {
    &&& e.word.0@ == Seq::new(5, |k: int| line[k] as char)
    &&& e.class == line_class(line)
    &&& e.counts@.len() == 7
    &&& forall|k: int| 0 <= k < 7 ==> (#[trigger] e.counts@[k]) as int == line_counts(line)[k]
}

/// The places among the first `n` lines of the lines that are no
/// comments.
pub open spec fn word_lines(lines: Seq<Vec<u8>>, n: int) -> Seq<int>
    decreases n,
{
    if n <= 0 {
        Seq::empty()
    } else if lines[n - 1]@[0] == 42 {
        word_lines(lines, n - 1)
    } else {
        word_lines(lines, n - 1).push(n - 1)
    }
}

/// The counts stay seven while they are read.
pub proof fn lemma_scan_len(rest: Seq<u8>, k: int)
    requires
        0 <= k <= rest.len(),
        readable(rest),
    ensures
        scan(rest, k).counts.len() == 7,
        0 <= scan(rest, k).i <= 7,
        0 <= scan(rest, k).accum,
        forall|q: int| 0 <= q < 7 ==> 0 <= #[trigger] scan(rest, k).counts[q] <= usize::MAX,
    decreases k,
{
    if k > 0 {
        lemma_scan_len(rest, k - 1);
        assert(scan(rest, k - 1).accum <= usize::MAX);
    }
}

/// The words of the lines `lines`, in the order of the lines: every line
/// that is no comment gives one word.
pub fn words_from(lines: &Vec<Vec<u8>>) -> (d: WordsData)
    requires
        forall|n: int| 0 <= n < lines@.len() ==> line_ok((#[trigger] lines@[n])@),
    ensures
        d.m@.len() == word_lines(lines@, lines@.len() as int).len(),
        forall|q: int|
            0 <= q < d.m@.len() ==> entry_of(
                lines@[word_lines(lines@, lines@.len() as int)[q]]@,
                #[trigger] d.m@[q],
            ),
{
    let mut d = WordsData { m: Vec::new() };
    let mut n: usize = 0;
    while n < lines.len()
        invariant
            forall|n: int| 0 <= n < lines@.len() ==> line_ok((#[trigger] lines@[n])@),
            0 <= n <= lines.len(),
            d.m@.len() == word_lines(lines@, n as int).len(),
            forall|q: int|
                0 <= q < d.m@.len() ==> entry_of(
                    lines@[word_lines(lines@, n as int)[q]]@,
                    #[trigger] d.m@[q],
                ),
        decreases lines.len() - n,
    {
        let line = &lines[n];
        assert(line_ok(line@));
        if line[0] != 42 {
            let word = [
                line[0] as char,
                line[1] as char,
                line[2] as char,
                line[3] as char,
                line[4] as char,
            ];
            let class = if line.len() == 5 {
                Class::Unusual
            } else {
                let c = line[5];
                if c == 42 {
                    Class::Common
                } else if c == 43 {
                    Class::Advanced
                } else {
                    Class::Unusual
                }
            };
            let mut counts: Vec<usize> = Vec::new();
            let mut z: usize = 0;
            while z < 7
                invariant
                    0 <= z <= 7,
                    counts@.len() == z,
                    forall|q: int| 0 <= q < z ==> counts@[q] == 0,
                decreases 7 - z,
            {
                counts.push(0);
                z = z + 1;
            }
            if line.len() > 5 {
                let ghost rest = line@.skip(6);
                let mut accum: usize = 0;
                let mut i: usize = 0;
                let mut k: usize = 6;
                while k < line.len()
                    invariant
                        6 <= k <= line.len(),
                        rest == line@.skip(6),
                        readable(rest),
                        counts@.len() == 7,
                        accum == scan(rest, k - 6).accum,
                        i == scan(rest, k - 6).i,
                        forall|q: int|
                            0 <= q < 7 ==> (#[trigger] counts@[q]) as int == scan(
                                rest,
                                k - 6,
                            ).counts[q],
                    decreases line.len() - k,
                {
                    let c = line[k];
                    proof {
                        lemma_scan_len(rest, k - 6);
                        lemma_scan_len(rest, k - 5);
                        assert(rest[k - 6] == c);
                        assert(scan(rest, k - 5).accum <= usize::MAX);
                    }
                    if c == 44 {
                        counts[i] = accum;
                        accum = 0;
                        i = i + 1;
                    } else if 48 <= c && c <= 57 {
                        accum = accum * 10 + (c - 48) as usize;
                    }
                    k = k + 1;
                }
            }
            let e = Entry { word: Key(word), class: class, counts: counts };
            proof {
                assert(e.word.0@ =~= Seq::new(5, |k: int| line@[k] as char));
            }
            let ghost before = d.m@;
            d.m.push(e);
            proof {
                let wl = word_lines(lines@, n as int);
                let wl2 = word_lines(lines@, n + 1);
                assert(wl2 == wl.push(n as int));
                assert forall|q: int| 0 <= q < d.m@.len() implies entry_of(
                    lines@[wl2[q]]@,
                    #[trigger] d.m@[q],
                ) by {
                    if q < before.len() {
                        assert(d.m@[q] == before[q]);
                        assert(wl2[q] == wl[q]);
                    }
                }
            }
        }
        n = n + 1;
    }
    d
}

/// The name of the class, in a field of eight characters.
pub open spec fn class_name(class: Class) -> Seq<char> {
    match class {
        Class::Common => "  common"@,
        Class::Unusual => " unusual"@,
        Class::Advanced => "advanced"@,
    }
}

/// The numbers `v`, each in decimal digits.
pub open spec fn count_texts(v: Seq<usize>) -> Seq<Seq<char>> {
    Seq::new(v.len(), |i: int| digits(v[i] as nat))
}

/// The line that tells of the word `e`: the word, its class, and its
/// counts in square brackets.
pub open spec fn word_line(e: Entry) -> Seq<char> {
    ("key: "@ + e.word.0@).push(' ') + class_name(e.class) + " ["@ + joined_by(
        count_texts(e.counts@),
        ", "@,
    ) + "]"@
}

/// The lines that tell of the words `data`, one for each word.
pub fn print_words(data: &WordsData) -> (lines: Vec<String>)
    ensures
        lines@.len() == data.m@.len(),
        forall|q: int| 0 <= q < lines@.len() ==> (#[trigger] lines@[q])@ == word_line(data.m@[q]),
{
    let mut lines: Vec<String> = Vec::new();
    let mut q: usize = 0;
    while q < data.m.len()
        invariant
            0 <= q <= data.m.len(),
            lines@.len() == q,
            forall|r: int| 0 <= r < q ==> (#[trigger] lines@[r])@ == word_line(data.m@[r]),
        decreases data.m.len() - q,
    {
        let v = &data.m[q];
        let mut s = String::from_str("key: ");
        let mut k: usize = 0;
        while k < 5
            invariant
                0 <= k <= 5,
                s@ == "key: "@ + v.word.0@.take(k as int),
            decreases 5 - k,
        {
            push_char(&mut s, v.word.0[k]);
            k = k + 1;
            assert(s@ =~= "key: "@ + v.word.0@.take(k as int));
        }
        assert(v.word.0@.take(5) =~= v.word.0@);
        push_char(&mut s, ' ');
        let c = match v.class {
            Class::Common => "  common",
            Class::Unusual => " unusual",
            Class::Advanced => "advanced",
        };
        s.append(c);
        s.append(" [");
        let ghost start = s@;
        let ghost parts = count_texts(v.counts@);
        let mut k: usize = 0;
        assert(s@ =~= start + joined_by(parts.take(0), ", "@));
        while k < v.counts.len()
            invariant
                0 <= k <= v.counts.len(),
                parts == count_texts(v.counts@),
                s@ == start + joined_by(parts.take(k as int), ", "@),
            decreases v.counts.len() - k,
        {
            if k > 0 {
                s.append(", ");
            }
            s.append(nat_text(v.counts[k]).as_str());
            k = k + 1;
            proof {
                let now = parts.take(k as int);
                assert(now.drop_last() =~= parts.take(k - 1));
                assert(now.last() == parts[k - 1]);
                assert(s@ =~= start + joined_by(now, ", "@));
            }
        }
        proof {
            assert(parts.take(v.counts@.len() as int) =~= parts);
        }
        s.append("]");
        assert(s@ =~= word_line(*v));
        lines.push(s);
        q = q + 1;
    }
    lines
}

} // verus!
