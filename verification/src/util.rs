//! The subsets of a list, the smaller first.

use vstd::prelude::*;

verus! {

/// The lists `v`, each with `x` added at its end.
pub open spec fn each_with(v: Seq<Seq<usize>>, x: usize) -> Seq<Seq<usize>> {
    Seq::new(v.len(), |k: int| v[k].push(x))
}

/// The sublists of the first `i` elements of `vec`: those of the first
/// `i - 1` elements, and then the same again with the last element added
/// to each.
pub open spec fn sublists(vec: Seq<usize>, i: int) -> Seq<Seq<usize>>
    decreases i,
{
    if i <= 0 {
        seq![Seq::<usize>::empty()]
    } else {
        sublists(vec, i - 1) + each_with(sublists(vec, i - 1), vec[i - 1])
    }
}

/// Those of the first `k` lists of `v` that have the length `len`, in the
/// order in which they stand in `v`.
pub open spec fn of_length(v: Seq<Seq<usize>>, len: int, k: int) -> Seq<Seq<usize>>
    decreases k,
{
    if k <= 0 {
        Seq::empty()
    } else if v[k - 1].len() == len {
        of_length(v, len, k - 1).push(v[k - 1])
    } else {
        of_length(v, len, k - 1)
    }
}

/// The lists of `v` of the lengths below `n`, the shorter first, and those
/// of one length in the order in which they stand in `v`.
pub open spec fn by_length(v: Seq<Seq<usize>>, n: int) -> Seq<Seq<usize>>
    decreases n,
{
    if n <= 0 {
        Seq::empty()
    } else {
        by_length(v, n - 1) + of_length(v, n - 1, v.len() as int)
    }
}

/// The vectors `v`, as lists.
pub open spec fn lists(v: Seq<Vec<usize>>) -> Seq<Seq<usize>> {
    Seq::new(v.len(), |i: int| v[i]@)
}

/// A copy of `v`.
fn copy(v: &Vec<usize>) -> (r: Vec<usize>)
    ensures
        r@ == v@,
{
    let mut r: Vec<usize> = Vec::new();
    let mut k: usize = 0;
    while k < v.len()
        invariant
            0 <= k <= v.len(),
            r@ == v@.take(k as int),
        decreases v.len() - k,
    {
        r.push(v[k]);
        k = k + 1;
        assert(r@ =~= v@.take(k as int));
    }
    assert(v@.take(v@.len() as int) =~= v@);
    r
}

/// Every sublist of `vec`, the shorter before the longer, and those of one
/// length in the order in which they are made: first those without the
/// last element that they could have.
pub fn powervec(vec: Vec<usize>) -> (sets: Vec<Vec<usize>>)
    ensures
        lists(sets@) == by_length(sublists(vec@, vec@.len() as int), vec@.len() as int + 1),
{
    let mut accum: Vec<Vec<usize>> = Vec::new();
    accum.push(Vec::new());
    assert(lists(accum@) =~= sublists(vec@, 0));
    let mut i: usize = 0;
    while i < vec.len()
        invariant
            0 <= i <= vec.len(),
            lists(accum@) == sublists(vec@, i as int),
        decreases vec.len() - i,
    {
        let x = vec[i];
        let ghost before = lists(accum@);
        let n = accum.len();
        let mut k: usize = 0;
        while k < n
            invariant
                0 <= k <= n,
                n == before.len(),
                accum@.len() == n + k,
                lists(accum@) == before + each_with(before.take(k as int), x),
            decreases n - k,
        {
            let ghost was = lists(accum@);
            let mut v = copy(&accum[k]);
            v.push(x);
            accum.push(v);
            proof {
                assert(was[k as int] == before[k as int]);
                assert(lists(accum@) =~= was.push(before[k as int].push(x)));
                assert(before + each_with(before.take(k + 1), x) =~= (before + each_with(
                    before.take(k as int),
                    x,
                )).push(before[k as int].push(x)));
            }
            k = k + 1;
        }
        proof {
            assert(before.take(n as int) =~= before);
        }
        i = i + 1;
    }
    let ghost all = lists(accum@);
    let mut sorted: Vec<Vec<usize>> = Vec::new();
    let mut len: usize = 0;
    assert(lists(sorted@) =~= by_length(all, 0));
    while len <= vec.len()
        invariant
            0 <= len <= vec.len() + 1,
            all == lists(accum@),
            all == sublists(vec@, vec@.len() as int),
            lists(sorted@) == by_length(all, len as int),
        decreases vec.len() + 1 - len,
    {
        let ghost start = lists(sorted@);
        let mut k: usize = 0;
        assert(lists(sorted@) =~= start + of_length(all, len as int, 0));
        while k < accum.len()
            invariant
                0 <= k <= accum.len(),
                all == lists(accum@),
                lists(sorted@) == start + of_length(all, len as int, k as int),
            decreases accum.len() - k,
        {
            if accum[k].len() == len {
                let ghost was = lists(sorted@);
                sorted.push(copy(&accum[k]));
                proof {
                    assert(all[k as int] == accum@[k as int]@);
                    assert(lists(sorted@) =~= was.push(all[k as int]));
                    assert(start + of_length(all, len as int, k + 1) =~= (start + of_length(
                        all,
                        len as int,
                        k as int,
                    )).push(all[k as int]));
                }
            } else {
                proof {
                    assert(all[k as int] == accum@[k as int]@);
                }
            }
            k = k + 1;
        }
        if len == vec.len() {
            proof {
                assert(lists(sorted@) == by_length(all, len + 1));
            }
            return sorted;
        }
        len = len + 1;
    }
    sorted
}

} // verus!
