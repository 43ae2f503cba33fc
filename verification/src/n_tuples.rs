//! The tuples of numbers in mixed radix, in the order of the dictionary.

use vstd::prelude::*;

verus! {

/// The state of the walk through the tuples: the radices `m`, with a
/// guard of radix 2 before them, and the tuple `a` where the walk stands,
/// with a guard digit before it.
#[derive(Debug)]
pub struct MixedRadixLexIterator {
    pub m: Vec<usize>,
    pub a: Vec<usize>,
}

/// The walk through the tuples with the radices `m`, at its start: the
/// guard of radix 2 stands before the radices, and the guard digit 0 before
/// the digits, which begin as the radices themselves.
pub fn mixed_radix_lexicographic(m: Vec<usize>) -> (it: MixedRadixLexIterator)
    ensures
        it.m@ == seq![2usize] + m@,
        it.a@ == seq![0usize] + m@,
{
    let mut a: Vec<usize> = Vec::new();
    a.push(0);
    let mut r: Vec<usize> = Vec::new();
    r.push(2);
    let mut k: usize = 0;
    while k < m.len()
        invariant
            0 <= k <= m.len(),
            a@ == seq![0usize] + m@.take(k as int),
            r@ == seq![2usize] + m@.take(k as int),
        decreases m.len() - k,
    {
        a.push(m[k]);
        r.push(m[k]);
        k = k + 1;
        assert(a@ =~= seq![0usize] + m@.take(k as int));
        assert(r@ =~= seq![2usize] + m@.take(k as int));
    }
    assert(m@.take(m@.len() as int) =~= m@);
    MixedRadixLexIterator { m: r, a: a }
}

} // verus!
