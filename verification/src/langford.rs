//! Langford pairings: arrangements of the numbers 1, 1, 2, 2, ..., n, n in
//! which the two numbers k stand k places apart; and the step from one
//! arrangement to the next in the order of the dictionary.

use vstd::prelude::*;

verus! {

/// The numbers 1, 1, 2, 2, ..., n, n.
pub open spec fn pairs(n: int) -> Seq<int> {
    Seq::new(
        if n < 0 {
            0nat
        } else {
            (2 * n) as nat
        },
        |k: int| k / 2 + 1,
    )
}

/// The small numbers `s`, as numbers.
pub open spec fn small_ints(s: Seq<u8>) -> Seq<int> {
    Seq::new(s.len(), |k: int| s[k] as int)
}

/// The machine numbers `s`, as numbers.
pub open spec fn ints(s: Seq<usize>) -> Seq<int> {
    Seq::new(s.len(), |k: int| s[k] as int)
}

/// The numbers 1, 1, 2, 2, ..., n, n.
pub fn two_n(n: u8) -> (accum: Vec<u8>)
    ensures
        small_ints(accum@) == pairs(n as int),
{
    let mut accum: Vec<u8> = Vec::new();
    let mut i: u8 = 0;
    while i < n
        invariant
            0 <= i <= n,
            small_ints(accum@) == pairs(i as int),
        decreases n - i,
    {
        let ghost before = accum@;
        accum.push(i + 1);
        accum.push(i + 1);
        i = i + 1;
        proof {
            let got = small_ints(accum@);
            let was = small_ints(before);
            assert(was.len() == pairs(i - 1).len());
            assert(before.len() == 2 * (i - 1));
            assert(got.len() == pairs(i as int).len());
            assert forall|q: int| 0 <= q < got.len() implies got[q] == pairs(i as int)[q] by {
                if q < 2 * (i - 1) {
                    assert(got[q] == was[q]);
                    assert(was[q] == pairs(i - 1)[q]);
                }
            }
            assert(got =~= pairs(i as int));
        }
    }
    accum
}

/// The numbers 1, 1, 2, 2, ..., n, n.
pub fn seq_2n(n: usize) -> (s: Vec<usize>)
    requires
        n < usize::MAX,
    ensures
        ints(s@) == pairs(n as int),
{
    let mut i: usize = 1;
    let mut s: Vec<usize> = Vec::new();
    while i <= n
        invariant
            1 <= i <= n + 1,
            n < usize::MAX,
            ints(s@) == pairs(i - 1),
        decreases n + 1 - i,
    {
        let ghost before = s@;
        s.push(i);
        s.push(i);
        i = i + 1;
        proof {
            let got = ints(s@);
            let was = ints(before);
            assert(was.len() == pairs(i - 2).len());
            assert(before.len() == 2 * (i - 2));
            assert(got.len() == pairs(i - 1).len());
            assert forall|q: int| 0 <= q < got.len() implies got[q] == pairs(i - 1)[q] by {
                if q < 2 * (i - 2) {
                    assert(got[q] == was[q]);
                    assert(was[q] == pairs(i - 2)[q]);
                }
            }
            assert(got =~= pairs(i - 1));
        }
    }
    s
}

/// The number at place `i` of `row` has its like `row[i] + 1` places
/// before it or behind it.
pub open spec fn paired_at(row: Seq<int>, i: int) -> bool {
    let k = row[i];
    ||| (i - k - 1 >= 0 && i - k - 1 < row.len() && row[i - k - 1] == k)
    ||| (i + k + 1 >= 0 && i + k + 1 < row.len() && row[i + k + 1] == k)
}

/// Every number of `row` has its like as many places plus one apart as the
/// number says.
pub open spec fn langford(row: Seq<int>) -> bool {
    forall|i: int| 0 <= i < row.len() ==> #[trigger] paired_at(row, i)
}

/// How a number and the number at the place where its like should stand go
/// together.
#[derive(Clone, Copy, PartialEq, Eq, Structural, Debug)]
pub enum Match {
    Absent,
    Matches,
    Mismatch,
}

/// Whether the small numbers `row` are a Langford arrangement. The row
/// and its numbers must be small enough for places to be counted in a
/// byte.
pub fn is_langford_ordered(row: &[u8]) -> (b: bool)
    requires
        row@.len() <= 255,
        forall|i: int| 0 <= i < row@.len() ==> #[trigger] row@[i] + row@.len() + 1 <= 255,
    ensures
        b == langford(small_ints(row@)),
{
    let ghost vals = small_ints(row@);
    let len = row.len() as u8;
    let mut i: u8 = 0;
    while i < len
        invariant
            row@.len() <= 255,
            forall|i: int| 0 <= i < row@.len() ==> #[trigger] row@[i] + row@.len() + 1 <= 255,
            len == row@.len(),
            vals == small_ints(row@),
            0 <= i <= len,
            forall|q: int| 0 <= q < i ==> #[trigger] paired_at(vals, q),
        decreases len - i,
    {
        let k = row[i as usize];
        let prev_match = if i < k + 1 || i >= k + len + 1 {
            Match::Absent
        } else if row[(i - k - 1) as usize] == k {
            Match::Matches
        } else {
            Match::Mismatch
        };
        let post_match = if k + 1 >= len - i {
            Match::Absent
        } else if row[(i + k + 1) as usize] == k {
            Match::Matches
        } else {
            Match::Mismatch
        };
        if prev_match != Match::Matches && post_match != Match::Matches {
            proof {
                assert(!paired_at(vals, i as int));
            }
            return false;
        }
        proof {
            assert(paired_at(vals, i as int));
        }
        i = i + 1;
    }
    true
}

/// Whether the numbers `seq` are a Langford arrangement.
pub fn is_langford(seq: &[usize]) -> (b: bool)
    ensures
        b == langford(ints(seq@)),
{
    let ghost vals = ints(seq@);
    let len = seq.len();
    let mut i: usize = 0;
    while i < len
        invariant
            len == seq@.len(),
            vals == ints(seq@),
            0 <= i <= len,
            forall|q: int| 0 <= q < i ==> #[trigger] paired_at(vals, q),
        decreases len - i,
    {
        let v = seq[i];
        let pre = v < i && seq[i - v - 1] == seq[i];
        let post = v < len - i - 1 && seq[i + v + 1] == seq[i];
        if !pre && !post {
            proof {
                assert(!paired_at(vals, i as int));
            }
            return false;
        }
        proof {
            assert(paired_at(vals, i as int));
        }
        i = i + 1;
    }
    return true;
}

/// From place `j` on, the numbers of `a` do not rise.
pub open spec fn falling_from(a: Seq<usize>, j: int) -> bool {
    forall|p: int, q: int| j <= p < q < a.len() ==> #[trigger] a[p] >= #[trigger] a[q]
}

/// The place `j` is where the next arrangement begins to differ: the number
/// before it is less than the one at it, and from `j` on nothing rises.
pub open spec fn turn_at(a: Seq<usize>, j: int) -> bool {
    &&& 1 <= j < a.len()
    &&& a[j - 1] < a[j]
    &&& falling_from(a, j)
}

/// The place `l` holds the last number that is greater than the one before
/// the turn at `j`.
pub open spec fn swap_at(a: Seq<usize>, j: int, l: int) -> bool {
    &&& j <= l < a.len()
    &&& a[j - 1] < a[l]
    &&& forall|q: int| l < q < a.len() ==> a[j - 1] >= #[trigger] a[q]
}

/// The numbers `a` with the places `p` and `q` exchanged.
pub open spec fn exchanged(a: Seq<usize>, p: int, q: int) -> Seq<usize> {
    a.update(p, a[q]).update(q, a[p])
}

/// The numbers `a` with the part from place `j` on turned round.
pub open spec fn tail_reversed(a: Seq<usize>, j: int) -> Seq<usize> {
    Seq::new(
        a.len(),
        |k: int|
            if k < j {
                a[k]
            } else {
                a[a.len() - 1 - (k - j)]
            },
    )
}

/// The arrangement that follows `a` in the order of the dictionary, given
/// the place `j` of the turn and the place `l` of the exchange.
pub open spec fn next_of(a: Seq<usize>, j: int, l: int) -> Seq<usize> {
    tail_reversed(exchanged(a, j - 1, l), j)
}

/// Steps from the arrangement `a` to the next in the order of the
/// dictionary, and tells whether there was a next one; where `a` is the
/// last arrangement, it is left as it is.
pub fn next_perm(a: &mut Vec<usize>) -> (more: bool)
    requires
        old(a)@.len() >= 2,
    ensures
        more ==> exists|j: int, l: int|
            turn_at(old(a)@, j) && swap_at(old(a)@, j, l) && final(a)@ == next_of(old(a)@, j, l),
        !more ==> falling_from(old(a)@, 0) && final(a)@ == old(a)@,
{
    let ghost a0 = a@;
    let n = a.len();
    let mut j: usize = n - 1;
    while a[j - 1] >= a[j]
        invariant
            n == a@.len(),
            a@ == a0,
            n >= 2,
            1 <= j <= n - 1,
            falling_from(a0, j as int),
        decreases j,
    {
        proof {
            assert forall|p: int, q: int| j - 1 <= p < q < a0.len() implies #[trigger] a0[p]
                >= #[trigger] a0[q] by {
                if p == j - 1 && q > j {
                    assert(a0[j as int] >= a0[q]);
                }
            }
        }
        j = j - 1;
        if j == 0 {
            return false;
        }
    }
    let mut l: usize = n;
    while a[j - 1] >= a[l - 1]
        invariant
            n == a@.len(),
            a@ == a0,
            1 <= j <= n - 1,
            a0[j - 1] < a0[j as int],
            j < l <= n,
            forall|q: int| l <= q < n ==> a0[j - 1] >= #[trigger] a0[q],
        decreases l,
    {
        l = l - 1;
    }
    let ghost lw = l - 1;
    let tmp = a[j - 1];
    a[j - 1] = a[l - 1];
    a[l - 1] = tmp;
    let ghost a1 = a@;
    assert(a1 =~= exchanged(a0, j - 1, lw));
    let mut k: usize = j + 1;
    l = n;
    while k < l
        invariant
            n == a@.len(),
            a1.len() == n,
            1 <= j <= n - 1,
            j + 1 <= k,
            k <= l + 1,
            l <= n,
            k - 1 - j == n - l,
            forall|q: int| 0 <= q < j ==> a@[q] == a1[q],
            forall|q: int| j <= q < k - 1 ==> a@[q] == a1[n - 1 - (q - j)],
            forall|q: int| l <= q < n ==> a@[q] == a1[n - 1 - (q - j)],
            forall|q: int| k - 1 <= q < l ==> a@[q] == a1[q],
        decreases l + 1 - k,
    {
        let tmp = a[k - 1];
        a[k - 1] = a[l - 1];
        a[l - 1] = tmp;
        k = k + 1;
        l = l - 1;
    }
    proof {
        assert(a@ =~= tail_reversed(a1, j as int));
        assert(turn_at(a0, j as int));
        assert(swap_at(a0, j as int, lw as int));
    }
    true
}

/// The list `v` with the places `i` and `j` exchanged.
pub open spec fn swapped(v: Seq<u8>, i: int, j: int) -> Seq<u8> {
    v.update(i, v[j]).update(j, v[i])
}

/// The lists `set`, with `s` added at the end unless it is among them.
pub open spec fn inserted(set: Seq<Seq<u8>>, s: Seq<u8>) -> Seq<Seq<u8>> {
    if set.contains(s) {
        set
    } else {
        set.push(s)
    }
}

/// The new lists that the exchange of the places `i` and `j` makes of the
/// first `k` lists of `set`: those that are not in `set` already.
pub open spec fn to_add(set: Seq<Seq<u8>>, i: int, j: int, k: int) -> Seq<Seq<u8>>
    decreases k,
{
    if k <= 0 {
        Seq::empty()
    } else if !set.contains(swapped(set[k - 1], i, j)) {
        to_add(set, i, j, k - 1).push(swapped(set[k - 1], i, j))
    } else {
        to_add(set, i, j, k - 1)
    }
}

/// The lists `set` with the first `k` lists of `add` inserted.
pub open spec fn insert_all(set: Seq<Seq<u8>>, add: Seq<Seq<u8>>, k: int) -> Seq<Seq<u8>>
    decreases k,
{
    if k <= 0 {
        set
    } else {
        inserted(insert_all(set, add, k - 1), add[k - 1])
    }
}

/// The lists after the exchanges of place `i` with each place from `i + 1`
/// up to `j`, `j` left out.
pub open spec fn after_places(set: Seq<Seq<u8>>, i: int, j: int) -> Seq<Seq<u8>>
    decreases j - i,
{
    if j <= i + 1 {
        set
    } else {
        let before = after_places(set, i, j - 1);
        insert_all(
            before,
            to_add(before, i, j - 1, before.len() as int),
            to_add(before, i, j - 1, before.len() as int).len() as int,
        )
    }
}

/// The lists after the first `t` rounds: the round `t` exchanges the place
/// `len - t` with each place behind it.
pub open spec fn after_rounds(vec: Seq<u8>, t: int) -> Seq<Seq<u8>>
    decreases t,
{
    if t <= 0 {
        seq![vec]
    } else {
        after_places(after_rounds(vec, t - 1), vec.len() - t, vec.len() as int)
    }
}

/// The vectors `v`, as lists.
pub open spec fn small_lists(v: Seq<Vec<u8>>) -> Seq<Seq<u8>> {
    Seq::new(v.len(), |i: int| v[i]@)
}

/// Whether the list `v` is among the lists `set`.
fn contains_list(set: &Vec<Vec<u8>>, v: &Vec<u8>) -> (b: bool)
    ensures
        b == small_lists(set@).contains(v@),
{
    let mut k: usize = 0;
    while k < set.len()
        invariant
            0 <= k <= set.len(),
            forall|q: int| 0 <= q < k ==> small_lists(set@)[q] != v@,
        decreases set.len() - k,
    {
        let w = &set[k];
        let mut same = w.len() == v.len();
        let mut q: usize = 0;
        while same && q < w.len()
            invariant
                0 <= q <= w.len(),
                same ==> w@.len() == v@.len() && w@.take(q as int) == v@.take(q as int),
                !same ==> w@ != v@,
            decreases w.len() - q,
        {
            if w[q] != v[q] {
                same = false;
                assert(w@[q as int] != v@[q as int]);
            } else {
                assert(w@.take(q + 1) =~= w@.take(q as int).push(w@[q as int]));
                assert(v@.take(q + 1) =~= v@.take(q as int).push(v@[q as int]));
            }
            q = q + 1;
        }
        if same {
            proof {
                assert(w@.take(w@.len() as int) =~= w@);
                assert(v@.take(v@.len() as int) =~= v@);
                assert(small_lists(set@)[k as int] == v@);
            }
            return true;
        }
        k = k + 1;
    }
    false
}

/// A copy of the list `v`.
fn copy_list(v: &Vec<u8>) -> (r: Vec<u8>)
    ensures
        r@ == v@,
{
    let mut r: Vec<u8> = Vec::new();
    let mut k: usize = 0;
    while k < v.len()
        invariant
            0 <= k <= v.len(),
            r@ == v@.take(k as int),
        decreases v.len() - k,
    {
        r.push(v[k]);
        k = k + 1;
        assert(r@ =~= v@.take(k as int));
    }
    assert(v@.take(v@.len() as int) =~= v@);
    r
}

/// The arrangements of `vec` that exchanges of two places make of it, each
/// once: round after round, from the last place to the first, a place is
/// exchanged with each place behind it in every arrangement found so far,
/// and what is new is added.
pub fn perms_vec(vec: Vec<u8>) -> (perms: Vec<Vec<u8>>)
    ensures
        small_lists(perms@) == after_rounds(vec@, vec@.len() as int),
{
    let mut set: Vec<Vec<u8>> = Vec::new();
    set.push(copy_list(&vec));
    assert(small_lists(set@) =~= after_rounds(vec@, 0));
    let n = vec.len();
    let mut t: usize = 0;
    while t < n
        invariant
            n == vec@.len(),
            0 <= t <= n,
            small_lists(set@) == after_rounds(vec@, t as int),
            forall|q: int| 0 <= q < set@.len() ==> (#[trigger] set@[q])@.len() == n,
        decreases n - t,
    {
        let i = n - t - 1;
        let ghost round_start = small_lists(set@);
        let mut j: usize = i + 1;
        while j < n
            invariant
                n == vec@.len(),
                0 <= i < n,
                i + 1 <= j <= n,
                small_lists(set@) == after_places(round_start, i as int, j as int),
                forall|q: int| 0 <= q < set@.len() ==> (#[trigger] set@[q])@.len() == n,
            decreases n - j,
        {
            let ghost before = small_lists(set@);
            let mut add: Vec<Vec<u8>> = Vec::new();
            let mut k: usize = 0;
            assert(small_lists(add@) =~= to_add(before, i as int, j as int, 0));
            while k < set.len()
                invariant
                    0 <= i < j < n,
                    0 <= k <= set.len(),
                    before == small_lists(set@),
                    small_lists(add@) == to_add(before, i as int, j as int, k as int),
                    forall|q: int| 0 <= q < set@.len() ==> (#[trigger] set@[q])@.len() == n,
                    forall|q: int| 0 <= q < add@.len() ==> (#[trigger] add@[q])@.len() == n,
                decreases set.len() - k,
            {
                let mut v = copy_list(&set[k]);
                let tmp = v[i];
                v[i] = v[j];
                v[j] = tmp;
                proof {
                    assert(before[k as int] == set@[k as int]@);
                    assert(v@ =~= swapped(before[k as int], i as int, j as int));
                }
                let present = contains_list(&set, &v);
                if !present {
                    let ghost was = small_lists(add@);
                    add.push(v);
                    assert(small_lists(add@) =~= was.push(
                        swapped(before[k as int], i as int, j as int),
                    ));
                }
                k = k + 1;
            }
            let ghost adds = small_lists(add@);
            let mut k: usize = 0;
            while k < add.len()
                invariant
                    0 <= k <= add.len(),
                    adds == small_lists(add@),
                    small_lists(set@) == insert_all(before, adds, k as int),
                    forall|q: int| 0 <= q < set@.len() ==> (#[trigger] set@[q])@.len() == n,
                    forall|q: int| 0 <= q < add@.len() ==> (#[trigger] add@[q])@.len() == n,
                decreases add.len() - k,
            {
                let s = copy_list(&add[k]);
                proof {
                    assert(adds[k as int] == add@[k as int]@);
                }
                if !contains_list(&set, &s) {
                    let ghost was = small_lists(set@);
                    set.push(s);
                    assert(small_lists(set@) =~= was.push(adds[k as int]));
                }
                k = k + 1;
            }
            j = j + 1;
        }
        t = t + 1;
    }
    set
}

} // verus!
