//! Small sets of several kinds behind common traits, and the test whether
//! one graph is part of another.

use crate::text::{digits, joined_by, nat_text};
use vstd::prelude::*;
use vstd::string::StringExecFns;

verus! {

/// A set that can say whether it holds an element.
pub trait AbstractSet<Elem> {
    /// The set holds `e`.
    spec fn holds(&self, e: Elem) -> bool;

    fn has(&self, e: &Elem) -> (b: bool)
        requires
            self.can_hold(*e),
        ensures
            b == self.holds(*e),
    ;

    /// The set can be asked about `e`.
    spec fn can_hold(&self, e: Elem) -> bool;
}

/// A set that can list its elements.
pub trait ListedSet<Elem>: AbstractSet<Elem> {
    /// The elements of the set that a walk through it visits, in the order
    /// of the walk.
    spec fn listed(&self) -> Seq<Elem>;

    /// The elements of the set that a walk through it visits; the set holds
    /// each of them.
    fn each_elem(&self) -> (v: Vec<Elem>)
        ensures
            v@ == self.listed(),
            forall|i: int| 0 <= i < v@.len() ==> self.holds(#[trigger] v@[i]),
    ;
}

/// A set that can say whether it is part of another of its kind.
pub trait SubsetSpecialized<Elem>: AbstractSet<Elem> {
    fn subset(&self, s: &Self) -> (b: bool)
        ensures
            b == (forall|e: Elem| self.holds(e) ==> s.holds(e)),
    ;
}

/// The set of the one number `x`.
#[derive(Clone, Copy, Debug)]
pub struct Singleton {
    pub x: usize,
}

/// The set of the one number `x`.
pub fn Singleton(x: usize) -> (s: Singleton)
    ensures
        s.x == x,
{
    Singleton { x: x }
}

/// The set of the two numbers `x` and `y`.
#[derive(Clone, Copy, Debug)]
pub struct TwoSet {
    pub x: usize,
    pub y: usize,
}

/// The set of the two numbers `x` and `y`.
pub fn TwoSet(x: usize, y: usize) -> (s: TwoSet)
    ensures
        s.x == x,
        s.y == y,
{
    TwoSet { x: x, y: y }
}

/// The set of the numbers below `limit`.
#[derive(Clone, Copy, Debug)]
pub struct NatCount {
    pub limit: usize,
}

/// The set of the numbers below `limit`.
pub fn NatCount(limit: usize) -> (s: NatCount)
    ensures
        s.limit == limit,
{
    NatCount { limit: limit }
}

/// The set of the numbers from `start` up to `limit`, `limit` left out.
#[derive(Clone, Copy, Debug)]
pub struct NatRange {
    pub start: usize,
    pub limit: usize,
}

/// The set of the numbers from `a` up to `b`, `b` left out.
pub fn NatRange(a: usize, b: usize) -> (s: NatRange)
    ensures
        s.start == a,
        s.limit == b,
{
    NatRange { start: a, limit: b }
}

/// The set of the numbers of the bits that are set in `bits`.
#[derive(Clone, Copy, Debug)]
pub struct BitsUint {
    pub bits: u64,
}

/// The set of the numbers of the bits that are set in `x`.
pub fn BitsUint(x: u64) -> (s: BitsUint)
    ensures
        s.bits == x,
{
    BitsUint { bits: x }
}

impl AbstractSet<usize> for Singleton {
    open spec fn holds(&self, e: usize) -> bool {
        e == self.x
    }

    open spec fn can_hold(&self, e: usize) -> bool {
        true
    }

    fn has(&self, e: &usize) -> (b: bool) {
        *e == self.x
    }
}

impl SubsetSpecialized<usize> for Singleton {
    fn subset(&self, s: &Singleton) -> (b: bool) {
        proof {
            if self.x != s.x {
                assert(self.holds(self.x));
            }
        }
        self.x == s.x
    }
}

impl ListedSet<usize> for Singleton {
    open spec fn listed(&self) -> Seq<usize> {
        seq![self.x]
    }

    fn each_elem(&self) -> (v: Vec<usize>) {
        let mut v: Vec<usize> = Vec::new();
        v.push(self.x);
        assert(v@ =~= seq![self.x]);
        v
    }
}

impl AbstractSet<usize> for TwoSet {
    open spec fn holds(&self, e: usize) -> bool {
        e == self.x || e == self.y
    }

    open spec fn can_hold(&self, e: usize) -> bool {
        true
    }

    fn has(&self, e: &usize) -> (b: bool) {
        *e == self.x || *e == self.y
    }
}

impl AbstractSet<usize> for NatCount {
    open spec fn holds(&self, e: usize) -> bool {
        e < self.limit
    }

    open spec fn can_hold(&self, e: usize) -> bool {
        true
    }

    fn has(&self, e: &usize) -> (b: bool) {
        *e < self.limit
    }
}

impl SubsetSpecialized<usize> for NatCount {
    fn subset(&self, e: &NatCount) -> (b: bool) {
        proof {
            if self.limit > e.limit {
                assert(self.holds(e.limit));
            }
        }
        self.limit <= e.limit
    }
}

impl AbstractSet<usize> for BitsUint {
    open spec fn holds(&self, e: usize) -> bool {
        e < 64 && ((1u64 << (e as u64)) & self.bits) != 0
    }

    open spec fn can_hold(&self, e: usize) -> bool {
        e < 64
    }

    fn has(&self, e: &usize) -> (b: bool) {
        ((1u64 << (*e as u64)) & self.bits) != 0
    }
}

/// Where every bit of `a` is a bit of `b`, a bit of `a` is a bit of `b`.
proof fn lemma_bits_subset(a: u64, b: u64, e: u64)
    requires
        e < 64,
    ensures
        (a & b) == a ==> (((1u64 << e) & a) != 0 ==> ((1u64 << e) & b) != 0),
{
    assert((a & b) == a ==> (((1u64 << e) & a) != 0 ==> ((1u64 << e) & b) != 0)) by (bit_vector)
        requires
            e < 64,
    ;
}

/// Where a bit of `a` is not a bit of `b`, one of the 64 bits shows it.
proof fn lemma_bits_witness(a: u64, b: u64) -> (e: u64)
    requires
        (a & b) != a,
    ensures
        e < 64,
        ((1u64 << e) & a) != 0,
        ((1u64 << e) & b) == 0,
{
    let d = a & !b;
    assert(d != 0) by (bit_vector)
        requires
            (a & b) != a,
            d == a & !b,
    ;
    let e = lemma_some_bit(d, 64);
    assert(((1u64 << e) & a) != 0 && ((1u64 << e) & b) == 0) by (bit_vector)
        requires
            e < 64,
            d == a & !b,
            ((1u64 << e) & d) != 0,
    ;
    e
}

/// A number that is not 0 below the bit `n` has a bit set below `n`.
proof fn lemma_some_bit(d: u64, n: u64) -> (e: u64)
    requires
        n <= 64,
        n < 64 ==> d & (((1u64 << n) - 1) as u64) != 0,
        n == 64 ==> d != 0,
    ensures
        e < n,
        ((1u64 << e) & d) != 0,
    decreases n,
{
    if n == 0 {
        assert(d & (((1u64 << 0u64) - 1) as u64) == 0) by (bit_vector);
        0
    } else if ((1u64 << ((n - 1) as u64)) & d) != 0 {
        (n - 1) as u64
    } else {
        let m = (n - 1) as u64;
        if n == 64 {
            assert(d & (((1u64 << m) - 1) as u64) != 0) by (bit_vector)
                requires
                    m == 63,
                    d != 0,
                    ((1u64 << m) & d) == 0,
            ;
        } else {
            assert(d & (((1u64 << m) - 1) as u64) != 0) by (bit_vector)
                requires
                    m < 63,
                    d & (((1u64 << ((m + 1) as u64)) - 1) as u64) != 0,
                    ((1u64 << m) & d) == 0,
            ;
        }
        lemma_some_bit(d, m)
    }
}

impl SubsetSpecialized<usize> for BitsUint {
    fn subset(&self, s: &BitsUint) -> (b: bool) {
        proof {
            if (self.bits & s.bits) == self.bits {
                assert forall|e: usize| self.holds(e) implies s.holds(e) by {
                    lemma_bits_subset(self.bits, s.bits, e as u64);
                }
            } else {
                let e = lemma_bits_witness(self.bits, s.bits);
                assert(self.holds(e as usize));
                assert(!s.holds(e as usize));
            }
        }
        (self.bits & s.bits) == self.bits
    }
}

/// The numbers that a walk through a set of bits visits: as many as a
/// machine word of 64 bits has bytes.
pub open spec fn walk_limit() -> usize {
    8
}

/// The numbers below `n` whose bit is set in `bits`, in rising order.
pub open spec fn bits_below(bits: u64, n: int) -> Seq<usize>
    decreases n,
{
    if n <= 0 {
        Seq::empty()
    } else if ((1u64 << ((n - 1) as u64)) & bits) != 0 {
        bits_below(bits, n - 1).push((n - 1) as usize)
    } else {
        bits_below(bits, n - 1)
    }
}

impl ListedSet<usize> for BitsUint {
    open spec fn listed(&self) -> Seq<usize> {
        bits_below(self.bits, walk_limit() as int)
    }

    /// The elements below the limit of the walk, in rising order.
    fn each_elem(&self) -> (v: Vec<usize>)
        ensures
            forall|e: usize| e < walk_limit() && self.holds(e) ==> v@.contains(e),
            forall|i: int| 0 <= i < v@.len() ==> (#[trigger] v@[i]) < walk_limit(),
            forall|i: int, j: int| 0 <= i < j < v@.len() ==> v@[i] < v@[j],
    {
        let mut v: Vec<usize> = Vec::new();
        let mut i: usize = 0;
        while i < 8
            invariant
                0 <= i <= 8,
                v@ == bits_below(self.bits, i as int),
                forall|k: int| 0 <= k < v@.len() ==> self.holds(#[trigger] v@[k]),
                forall|e: usize| e < i && self.holds(e) ==> v@.contains(e),
                forall|k: int| 0 <= k < v@.len() ==> (#[trigger] v@[k]) < i,
                forall|k: int, j: int| 0 <= k < j < v@.len() ==> v@[k] < v@[j],
            decreases 8 - i,
        {
            if self.has(&i) {
                let ghost before = v@;
                v.push(i);
                proof {
                    assert forall|e: usize| e < i + 1 && self.holds(e) implies v@.contains(e) by {
                        if e < i {
                            let k = choose|k: int| 0 <= k < before.len() && before[k] == e;
                            assert(v@[k] == e);
                        } else {
                            assert(v@[before.len() as int] == e);
                        }
                    }
                }
            }
            i = i + 1;
        }
        v
    }
}

/// A graph: a set of vertices and a set of edges.
pub trait Graph<V, Eset: SubsetSpecialized<usize>, GraphVset: SubsetSpecialized<V>> {
    /// The set of the vertices.
    spec fn vertex_set(&self) -> GraphVset;

    /// The set of the edges, each by its number.
    spec fn edge_set(&self) -> Eset;

    fn vertices(&self) -> (s: &GraphVset)
        ensures
            *s == self.vertex_set(),
    ;

    fn edges(&self) -> (s: &Eset)
        ensures
            *s == self.edge_set(),
    ;
}

/// A graph on the first numbers: its vertices are the numbers below a
/// limit, and its edges, each by its number, a set of bits.
#[derive(Clone, Copy, Debug)]
pub struct SmallGraph {
    pub v: NatCount,
    pub e: BitsUint,
}

impl Graph<usize, BitsUint, NatCount> for SmallGraph {
    open spec fn vertex_set(&self) -> NatCount {
        self.v
    }

    open spec fn edge_set(&self) -> BitsUint {
        self.e
    }

    fn vertices(&self) -> (s: &NatCount) {
        &self.v
    }

    fn edges(&self) -> (s: &BitsUint) {
        &self.e
    }
}

/// Whether the graph `g1` is part of the graph `g2`: every vertex of `g1`
/// is a vertex of `g2`, and every edge of `g1` an edge of `g2`.
pub fn is_subgraph<
    V,
    Eset: SubsetSpecialized<usize>,
    GraphVset: SubsetSpecialized<V>,
    G: Graph<V, Eset, GraphVset>,
>(g1: &G, g2: &G) -> (b: bool)
    ensures
        b == ((forall|v: V| g1.vertex_set().holds(v) ==> g2.vertex_set().holds(v)) && (forall|
            e: usize,
        |
            g1.edge_set().holds(e) ==> g2.edge_set().holds(e))),
{
    let v1: &GraphVset = g1.vertices();
    let v2: &GraphVset = g2.vertices();
    return v1.subset(v2) && g1.edges().subset(g2.edges());
}

/// The numbers `v`, each in decimal digits.
pub open spec fn number_texts(v: Seq<usize>) -> Seq<Seq<char>> {
    Seq::new(v.len(), |i: int| digits(v[i] as nat))
}

/// The set as text: the elements that a walk through it visits, with
/// commas between them, in curly brackets.
pub fn print<S: ListedSet<usize>>(s: &S) -> (ret: String)
    ensures
        ret@ == ("{"@ + joined_by(number_texts(s.listed()), ","@)).push('}'),
{
    let v = s.each_elem();
    let ghost parts = number_texts(v@);
    let mut ret = String::from_str("{");
    let ghost start = ret@;
    let mut printed = false;
    let mut k: usize = 0;
    assert(ret@ =~= start + joined_by(parts.take(0), ","@));
    while k < v.len()
        invariant
            0 <= k <= v.len(),
            parts == number_texts(v@),
            printed == (k > 0),
            ret@ == start + joined_by(parts.take(k as int), ","@),
        decreases v.len() - k,
    {
        if printed {
            ret.append(",");
        }
        ret.append(nat_text(v[k]).as_str());
        printed = true;
        k = k + 1;
        proof {
            let now = parts.take(k as int);
            assert(now.drop_last() =~= parts.take(k - 1));
            assert(now.last() == parts[k - 1]);
            assert(ret@ =~= start + joined_by(now, ","@));
        }
    }
    proof {
        assert(parts.take(v@.len() as int) =~= parts);
        reveal_strlit("}");
    }
    ret.append("}");
    assert(ret@ =~= ("{"@ + joined_by(number_texts(s.listed()), ","@)).push('}'));
    ret
}

} // verus!
