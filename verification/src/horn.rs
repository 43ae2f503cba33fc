//! The core of a set of Horn clauses: the propositions that are true in
//! every assignment that satisfies all the clauses.

use std::collections::HashMap;
use vstd::prelude::*;
use vstd::set_lib::{lemma_int_range, lemma_len_subset, set_int_range};

verus! {

broadcast use vstd::std_specs::hash::group_hash_axioms;

/// A reference to a proposition, by its number.
#[derive(Clone, Copy, Debug)]
pub struct PropId {
    pub idx: usize,
}

/// A reference to a clause, by its number.
#[derive(Clone, Copy, Debug)]
pub struct ClauseId {
    pub idx: usize,
}

/// A clause `u_1 and ... and u_k implies v`: its conclusion `v`, and the
/// number of its hypotheses that are not yet asserted.
#[derive(Debug)]
pub struct Clause {
    pub conclusion: PropId,
    pub count: usize,
}

/// One place where a proposition stands as a hypothesis: the clause, and
/// the place before it of the same proposition.
#[derive(Debug)]
pub struct Hypothesis {
    pub clause: ClauseId,
    pub prev: Option<Box<Hypothesis>>,
}

/// A proposition: whether it is known to be true, and the last place where
/// it stands as a hypothesis.
#[derive(Debug)]
pub struct Prop {
    pub truth: bool,
    pub last: Option<Box<Hypothesis>>,
}

/// The clauses of the places from `h` back, the last place first.
pub open spec fn records(h: Option<Box<Hypothesis>>) -> Seq<int>
    decreases h,
{
    match h {
        None => Seq::empty(),
        Some(b) => seq![b.clause.idx as int] + records(b.prev),
    }
}

/// The mathematical model of a set of Horn clauses over the propositions
/// `0..n`: the hypotheses and the conclusion of each clause.
pub struct Horn {
    pub n: int,
    pub hyps: Seq<Seq<int>>,
    pub concl: Seq<int>,
}

/// The number of the proposition that the name `v` stands for among the
/// first `n` names of `propvars`: where a name is given twice, the later
/// one counts.
pub open spec fn last_index(propvars: Seq<u64>, v: u64, n: int) -> int
    decreases n,
{
    if n <= 0 {
        -1
    } else if propvars[n - 1] == v {
        n - 1
    } else {
        last_index(propvars, v, n - 1)
    }
}

/// The clauses `input` over the names `propvars`, as a model.
pub open spec fn model_of(propvars: Seq<u64>, input: Seq<(Vec<u64>, u64)>) -> Horn {
    Horn {
        n: propvars.len() as int,
        hyps: Seq::new(
            input.len(),
            |c: int|
                Seq::new(
                    input[c].0@.len(),
                    |j: int| last_index(propvars, input[c].0@[j], propvars.len() as int),
                ),
        ),
        concl: Seq::new(
            input.len(),
            |c: int| last_index(propvars, input[c].1, propvars.len() as int),
        ),
    }
}

/// How many of the first `n` of the propositions `h` are not in `d`.
pub open spec fn misses(h: Seq<int>, d: Set<int>, n: int) -> int
    decreases n,
{
    if n <= 0 {
        0
    } else {
        misses(h, d, n - 1) + if d.contains(h[n - 1]) {
            0int
        } else {
            1
        }
    }
}

/// How many of the first `n` of the propositions `h` are `p`.
pub open spec fn times(h: Seq<int>, p: int, n: int) -> int
    decreases n,
{
    if n <= 0 {
        0
    } else {
        times(h, p, n - 1) + if h[n - 1] == p {
            1int
        } else {
            0
        }
    }
}

/// How often the clause `c` stands in the records `l`.
pub open spec fn count_in(l: Seq<int>, c: int) -> int
    decreases l.len(),
{
    if l.len() == 0 {
        0
    } else {
        count_in(l.drop_first(), c) + if l[0] == c {
            1int
        } else {
            0
        }
    }
}

/// The clause `c`, `k` times.
pub open spec fn repeat(c: int, k: int) -> Seq<int> {
    Seq::new(
        if k < 0 {
            0nat
        } else {
            k as nat
        },
        |i: int| c,
    )
}

impl Horn {
    /// The model is in order: every clause speaks of propositions of the
    /// model.
    pub open spec fn ok(self) -> bool {
        &&& self.n >= 0
        &&& self.hyps.len() == self.concl.len()
        &&& forall|c: int| 0 <= c < self.concl.len() ==> 0 <= #[trigger] self.concl[c] < self.n
        &&& forall|c: int, j: int|
            0 <= c < self.hyps.len() && 0 <= j < self.hyps[c].len() ==> 0
                <= #[trigger] self.hyps[c][j] < self.n
    }

    /// Every hypothesis of clause `c` is in `s`.
    pub open spec fn holds_all(self, c: int, s: Set<int>) -> bool {
        forall|j: int| 0 <= j < self.hyps[c].len() ==> s.contains(#[trigger] self.hyps[c][j])
    }

    /// The set `s` satisfies clause `c`.
    pub open spec fn satisfies(self, c: int, s: Set<int>) -> bool {
        self.holds_all(c, s) ==> s.contains(self.concl[c])
    }

    /// The set `s` of propositions satisfies every clause: it holds the
    /// conclusion of each clause of which it holds every hypothesis.
    pub open spec fn closed(self, s: Set<int>) -> bool {
        forall|c: int| 0 <= c < self.hyps.len() ==> #[trigger] self.satisfies(c, s)
    }

    /// Proposition `p` is in the core: every set of propositions that
    /// satisfies every clause holds it.
    pub open spec fn in_core(self, p: int) -> bool {
        forall|s: Set<int>| #[trigger] self.closed(s) ==> s.contains(p)
    }

    /// The core, as a set.
    pub open spec fn core_set(self) -> Set<int> {
        Set::new(|p: int| 0 <= p < self.n && self.in_core(p))
    }

    /// The records of proposition `p` for the first `m` clauses: each
    /// clause once for each time that `p` stands among its hypotheses, the
    /// last clause first.
    pub open spec fn occ(self, p: int, m: int) -> Seq<int>
        decreases m,
    {
        if m <= 0 {
            Seq::empty()
        } else {
            repeat(m - 1, times(self.hyps[m - 1], p, self.hyps[m - 1].len() as int)) + self.occ(
                p,
                m - 1,
            )
        }
    }
}

/// Counting in two lists of records, one after the other.
pub proof fn lemma_count_in_add(a: Seq<int>, b: Seq<int>, c: int)
    ensures
        count_in(a + b, c) == count_in(a, c) + count_in(b, c),
    decreases a.len(),
{
    if a.len() == 0 {
        assert(a + b =~= b);
    } else {
        lemma_count_in_add(a.drop_first(), b, c);
        assert((a + b).drop_first() =~= a.drop_first() + b);
    }
}

/// Counting in a run of one clause.
pub proof fn lemma_count_in_repeat(c2: int, k: int, c: int)
    requires
        k >= 0,
    ensures
        count_in(repeat(c2, k), c) == if c == c2 {
            k
        } else {
            0
        },
    decreases k,
{
    if k > 0 {
        lemma_count_in_repeat(c2, k - 1, c);
        assert(repeat(c2, k).drop_first() =~= repeat(c2, k - 1));
    }
}

/// A proposition stands no less than zero times among hypotheses.
pub proof fn lemma_times_bounds(h: Seq<int>, p: int, n: int)
    ensures
        0 <= times(h, p, n),
        n >= 0 ==> times(h, p, n) <= n,
    decreases n,
{
    if n > 0 {
        lemma_times_bounds(h, p, n - 1);
    }
}

/// The records of a proposition hold a clause as often as the proposition
/// stands among the hypotheses of the clause.
pub proof fn lemma_count_in_occ(horn: Horn, p: int, m: int, c: int)
    requires
        0 <= m <= horn.hyps.len(),
        0 <= c,
    ensures
        count_in(horn.occ(p, m), c) == if c < m {
            times(horn.hyps[c], p, horn.hyps[c].len() as int)
        } else {
            0
        },
    decreases m,
{
    if m > 0 {
        let k = times(horn.hyps[m - 1], p, horn.hyps[m - 1].len() as int);
        lemma_times_bounds(horn.hyps[m - 1], p, horn.hyps[m - 1].len() as int);
        lemma_count_in_occ(horn, p, m - 1, c);
        lemma_count_in_add(repeat(m - 1, k), horn.occ(p, m - 1), c);
        lemma_count_in_repeat(m - 1, k, c);
    }
}

/// Hypotheses miss a set as often as they miss a larger one and stand for
/// what it has more.
pub proof fn lemma_misses_insert(h: Seq<int>, d: Set<int>, p: int, n: int)
    requires
        !d.contains(p),
    ensures
        misses(h, d, n) == misses(h, d.insert(p), n) + times(h, p, n),
    decreases n,
{
    if n > 0 {
        lemma_misses_insert(h, d, p, n - 1);
    }
}

/// Hypotheses that miss a set no time are all in it, and the other way
/// round.
pub proof fn lemma_misses_none(h: Seq<int>, d: Set<int>, n: int)
    requires
        0 <= n <= h.len(),
    ensures
        misses(h, d, n) >= 0,
        misses(h, d, n) == 0 <==> forall|j: int| 0 <= j < n ==> d.contains(#[trigger] h[j]),
    decreases n,
{
    if n > 0 {
        lemma_misses_none(h, d, n - 1);
        if misses(h, d, n) == 0 {
            assert forall|j: int| 0 <= j < n implies d.contains(#[trigger] h[j]) by {
                if j < n - 1 {
                }
            }
        }
        if forall|j: int| 0 <= j < n ==> d.contains(#[trigger] h[j]) {
            assert(d.contains(h[n - 1]));
        }
    }
}

/// The conclusion of a clause whose hypotheses are all in the core is in
/// the core.
pub proof fn lemma_core_step(horn: Horn, c: int)
    requires
        0 <= c < horn.hyps.len(),
        forall|j: int| 0 <= j < horn.hyps[c].len() ==> horn.in_core(#[trigger] horn.hyps[c][j]),
    ensures
        horn.in_core(horn.concl[c]),
{
    assert forall|s: Set<int>| #[trigger] horn.closed(s) implies s.contains(horn.concl[c]) by {
        assert(horn.satisfies(c, s));
        assert forall|j: int| 0 <= j < horn.hyps[c].len() implies s.contains(
            #[trigger] horn.hyps[c][j],
        ) by {
            assert(horn.in_core(horn.hyps[c][j]));
        }
    }
}

/// Proposition `q` waits on the stack.
pub open spec fn on_stack(stack: Seq<PropId>, q: int) -> bool {
    exists|k: int| 0 <= k < stack.len() && (#[trigger] stack[k]).idx == q
}

/// The place `k` of the stack holds a proposition that is not yet taken
/// up, and that no place below holds.
pub open spec fn stack_ok(horn: Horn, stack: Seq<PropId>, d: Set<int>, k: int) -> bool {
    &&& 0 <= stack[k].idx < horn.n
    &&& !d.contains(stack[k].idx as int)
    &&& forall|k2: int| 0 <= k2 < k ==> (#[trigger] stack[k2]).idx != stack[k].idx
}

/// Clause `c` is in order while the propositions `d` are taken up and the
/// records `h` of the last of them are still to be read.
pub open spec fn clause_ok(
    horn: Horn,
    props: Seq<Prop>,
    clauses: Seq<Clause>,
    d: Set<int>,
    h: Seq<int>,
    c: int,
) -> bool {
    &&& clauses[c].conclusion.idx == horn.concl[c]
    &&& clauses[c].count == misses(horn.hyps[c], d, horn.hyps[c].len() as int) + count_in(h, c)
    &&& clauses[c].count == 0 ==> props[horn.concl[c]].truth
}

/// Proposition `q` is in order: it is true where it is taken up or waits on
/// the stack, and then it is in the core; and it has its records unless it
/// is taken up.
pub open spec fn prop_ok(
    horn: Horn,
    props: Seq<Prop>,
    stack: Seq<PropId>,
    d: Set<int>,
    q: int,
) -> bool {
    &&& props[q].truth <==> d.contains(q) || on_stack(stack, q)
    &&& props[q].truth ==> horn.in_core(q)
    &&& records(props[q].last) == if d.contains(q) {
        Seq::<int>::empty()
    } else {
        horn.occ(q, horn.hyps.len() as int)
    }
}

/// The state of the computation while the propositions `d` are taken up
/// and the records `h` of the last of them are still to be read.
pub open spec fn working(
    horn: Horn,
    props: Seq<Prop>,
    clauses: Seq<Clause>,
    stack: Seq<PropId>,
    d: Set<int>,
    h: Seq<int>,
) -> bool {
    &&& horn.ok()
    &&& props.len() == horn.n
    &&& clauses.len() == horn.hyps.len()
    &&& forall|c: int|
        0 <= c < horn.hyps.len() ==> #[trigger] clause_ok(horn, props, clauses, d, h, c)
    &&& forall|q: int| 0 <= q < horn.n ==> #[trigger] prop_ok(horn, props, stack, d, q)
    &&& forall|k: int| 0 <= k < stack.len() ==> #[trigger] stack_ok(horn, stack, d, k)
    &&& forall|k: int| 0 <= k < h.len() ==> 0 <= #[trigger] h[k] < horn.hyps.len()
    &&& d.subset_of(set_int_range(0, horn.n))
}

/// The records of a proposition are clauses of the model.
pub proof fn lemma_occ_range(horn: Horn, p: int, m: int)
    requires
        0 <= m,
    ensures
        forall|k: int| 0 <= k < horn.occ(p, m).len() ==> 0 <= #[trigger] horn.occ(p, m)[k] < m,
    decreases m,
{
    if m > 0 {
        lemma_occ_range(horn, p, m - 1);
        let run = repeat(m - 1, times(horn.hyps[m - 1], p, horn.hyps[m - 1].len() as int));
        let rest = horn.occ(p, m - 1);
        assert forall|k: int| 0 <= k < horn.occ(p, m).len() implies 0 <= #[trigger] horn.occ(
            p,
            m,
        )[k] < m by {
            if k < run.len() {
                assert(horn.occ(p, m)[k] == run[k]);
            } else {
                assert(horn.occ(p, m)[k] == rest[k - run.len()]);
            }
        }
    }
}

/// No clause stands less than zero times in records.
pub proof fn lemma_count_in_nonneg(l: Seq<int>, c: int)
    ensures
        count_in(l, c) >= 0,
    decreases l.len(),
{
    if l.len() > 0 {
        lemma_count_in_nonneg(l.drop_first(), c);
    }
}

/// Reading one record keeps the state in order.
pub proof fn lemma_step_record(
    horn: Horn,
    props: Seq<Prop>,
    clauses: Seq<Clause>,
    stack: Seq<PropId>,
    d: Set<int>,
    h: Seq<int>,
    props2: Seq<Prop>,
    clauses2: Seq<Clause>,
    stack2: Seq<PropId>,
)
    requires
        working(horn, props, clauses, stack, d, h),
        h.len() > 0,
        clauses2 == clauses.update(
            h[0],
            Clause { conclusion: clauses[h[0]].conclusion, count: (clauses[h[0]].count - 1) as usize },
        ),
        clauses[h[0]].count != 1 || props[horn.concl[h[0]]].truth ==> props2 == props && stack2
            == stack,
        clauses[h[0]].count == 1 && !props[horn.concl[h[0]]].truth ==> {
            &&& props2 == props.update(
                horn.concl[h[0]],
                Prop { truth: true, last: props[horn.concl[h[0]]].last },
            )
            &&& stack2 == stack.push(clauses[h[0]].conclusion)
        },
    ensures
        clauses[h[0]].count >= 1,
        working(horn, props2, clauses2, stack2, d, h.drop_first()),
{
    let c = h[0];
    let rest = h.drop_first();
    let m = horn.hyps.len() as int;
    let hc = horn.hyps[c];
    assert(clause_ok(horn, props, clauses, d, h, c));
    lemma_misses_none(hc, d, hc.len() as int);
    lemma_count_in_nonneg(rest, c);
    assert(count_in(h, c) == count_in(rest, c) + 1);
    let pi = horn.concl[c];
    assert(prop_ok(horn, props, stack, d, pi));
    if clauses[c].count == 1 {
        assert forall|j: int| 0 <= j < hc.len() implies horn.in_core(#[trigger] hc[j]) by {
            assert(d.contains(hc[j]));
            assert(prop_ok(horn, props, stack, d, hc[j]));
        }
        lemma_core_step(horn, c);
    }
    assert forall|c2: int| 0 <= c2 < m implies #[trigger] clause_ok(
        horn,
        props2,
        clauses2,
        d,
        rest,
        c2,
    ) by {
        assert(clause_ok(horn, props, clauses, d, h, c2));
        assert(count_in(h, c2) == count_in(rest, c2) + if c2 == c {
            1int
        } else {
            0
        });
        assert(props[horn.concl[c2]].truth ==> props2[horn.concl[c2]].truth);
    }
    assert forall|q: int| 0 <= q < horn.n implies #[trigger] prop_ok(
        horn,
        props2,
        stack2,
        d,
        q,
    ) by {
        assert(prop_ok(horn, props, stack, d, q));
        if on_stack(stack, q) {
            let k = choose|k: int| 0 <= k < stack.len() && (#[trigger] stack[k]).idx == q;
            assert(stack2[k].idx == q);
        }
        if on_stack(stack2, q) && !on_stack(stack, q) {
            let k = choose|k: int| 0 <= k < stack2.len() && (#[trigger] stack2[k]).idx == q;
            if k < stack.len() {
                assert(stack[k].idx == q);
            }
        }
        if clauses[c].count == 1 && !props[pi].truth && q == pi {
            assert(stack2[stack.len() as int].idx == q);
        }
    }
    assert forall|k: int| 0 <= k < stack2.len() implies #[trigger] stack_ok(
        horn,
        stack2,
        d,
        k,
    ) by {
        if k < stack.len() {
            assert(stack_ok(horn, stack, d, k));
            assert(stack2[k] == stack[k]);
            assert forall|k2: int| 0 <= k2 < k implies (#[trigger] stack2[k2]).idx
                != stack2[k].idx by {
                assert(stack2[k2] == stack[k2]);
            }
        } else {
            assert forall|k2: int| 0 <= k2 < k implies (#[trigger] stack2[k2]).idx
                != stack2[k].idx by {
                assert(stack2[k2] == stack[k2]);
                assert(on_stack(stack, stack[k2].idx as int));
            }
        }
    }
    assert forall|k: int| 0 <= k < rest.len() implies 0 <= #[trigger] rest[k] < m by {
        assert(rest[k] == h[k + 1]);
    }
}

/// Taking up the next proposition from the stack keeps the state in
/// order.
pub proof fn lemma_step_next(
    horn: Horn,
    props: Seq<Prop>,
    clauses: Seq<Clause>,
    stack: Seq<PropId>,
    d: Set<int>,
    props2: Seq<Prop>,
)
    requires
        working(horn, props, clauses, stack, d, Seq::empty()),
        stack.len() > 0,
        props2 == props.update(
            stack.last().idx as int,
            Prop { truth: props[stack.last().idx as int].truth, last: None },
        ),
    ensures
        0 <= stack.last().idx < horn.n,
        !d.contains(stack.last().idx as int),
        d.finite(),
        d.len() < horn.n,
        working(
            horn,
            props2,
            clauses,
            stack.drop_last(),
            d.insert(stack.last().idx as int),
            records(props[stack.last().idx as int].last),
        ),
{
    let p = stack.last().idx as int;
    let m = horn.hyps.len() as int;
    let d2 = d.insert(p);
    let h2 = records(props[p].last);
    let stack2 = stack.drop_last();
    assert(stack_ok(horn, stack, d, stack.len() - 1));
    assert(prop_ok(horn, props, stack, d, p));
    lemma_int_range(0, horn.n);
    assert(d2.subset_of(set_int_range(0, horn.n)));
    lemma_len_subset(d2, set_int_range(0, horn.n));
    lemma_len_subset(d, set_int_range(0, horn.n));
    lemma_occ_range(horn, p, m);
    assert forall|c: int| 0 <= c < m implies #[trigger] clause_ok(
        horn,
        props2,
        clauses,
        d2,
        h2,
        c,
    ) by {
        assert(clause_ok(horn, props, clauses, d, Seq::empty(), c));
        lemma_misses_insert(horn.hyps[c], d, p, horn.hyps[c].len() as int);
        lemma_count_in_occ(horn, p, m, c);
    }
    assert forall|q: int| 0 <= q < horn.n implies #[trigger] prop_ok(
        horn,
        props2,
        stack2,
        d2,
        q,
    ) by {
        assert(prop_ok(horn, props, stack, d, q));
        if on_stack(stack, q) && q != p {
            let k = choose|k: int| 0 <= k < stack.len() && (#[trigger] stack[k]).idx == q;
            assert(stack2[k].idx == q);
        }
        if on_stack(stack2, q) {
            let k = choose|k: int| 0 <= k < stack2.len() && (#[trigger] stack2[k]).idx == q;
            assert(stack[k].idx == q);
        }
        if q == p {
            assert(records(props2[q].last) =~= Seq::<int>::empty());
        }
    }
    assert forall|k: int| 0 <= k < stack2.len() implies #[trigger] stack_ok(
        horn,
        stack2,
        d2,
        k,
    ) by {
        assert(stack_ok(horn, stack, d, k));
        assert(stack2[k] == stack[k]);
        assert(stack[k].idx != stack[stack.len() - 1].idx);
        assert forall|k2: int| 0 <= k2 < k implies (#[trigger] stack2[k2]).idx
            != stack2[k].idx by {
            assert(stack2[k2] == stack[k2]);
        }
    }
}

/// When nothing is left to read and nothing waits, the true propositions
/// are the core.
pub proof fn lemma_finish(horn: Horn, props: Seq<Prop>, clauses: Seq<Clause>, d: Set<int>)
    requires
        working(horn, props, clauses, Seq::empty(), d, Seq::empty()),
    ensures
        d == horn.core_set(),
        forall|q: int| 0 <= q < horn.n ==> (#[trigger] props[q]).truth == horn.in_core(q),
        forall|q: int|
            0 <= q < horn.n ==> records((#[trigger] props[q]).last) == if horn.in_core(q) {
                Seq::<int>::empty()
            } else {
                horn.occ(q, horn.hyps.len() as int)
            },
        forall|c: int|
            0 <= c < horn.hyps.len() ==> (#[trigger] clauses[c]).conclusion.idx == horn.concl[c]
                && clauses[c].count == misses(
                horn.hyps[c],
                horn.core_set(),
                horn.hyps[c].len() as int,
            ),
{
    let stack = Seq::<PropId>::empty();
    let none = Seq::<int>::empty();
    assert forall|c: int| 0 <= c < horn.hyps.len() implies #[trigger] horn.satisfies(c, d) by {
        assert(clause_ok(horn, props, clauses, d, none, c));
        if horn.holds_all(c, d) {
            lemma_misses_none(horn.hyps[c], d, horn.hyps[c].len() as int);
            assert(prop_ok(horn, props, stack, d, horn.concl[c]));
        }
    }
    assert(horn.closed(d));
    assert forall|q: int| 0 <= q < horn.n implies ((#[trigger] props[q]).truth == horn.in_core(q)
        && d.contains(q) == horn.in_core(q)) by {
        assert(prop_ok(horn, props, stack, d, q));
    }
    assert forall|q: int| d.contains(q) <==> horn.core_set().contains(q) by {
        if d.contains(q) {
            assert(set_int_range(0, horn.n).contains(q));
        }
        if 0 <= q < horn.n {
            assert(prop_ok(horn, props, stack, d, q));
        }
    }
    assert(d =~= horn.core_set());
    assert forall|q: int| 0 <= q < horn.n implies records((#[trigger] props[q]).last)
        == if horn.in_core(q) {
        Seq::<int>::empty()
    } else {
        horn.occ(q, horn.hyps.len() as int)
    } by {
        assert(prop_ok(horn, props, stack, d, q));
    }
    assert forall|c: int| 0 <= c < horn.hyps.len() implies (#[trigger] clauses[c]).conclusion.idx
        == horn.concl[c] && clauses[c].count == misses(
        horn.hyps[c],
        horn.core_set(),
        horn.hyps[c].len() as int,
    ) by {
        assert(clause_ok(horn, props, clauses, d, none, c));
    }
}

/// The number that a name stands for is that of a place where the name
/// stands, where it stands at all.
pub proof fn lemma_last_index(propvars: Seq<u64>, v: u64, n: int)
    requires
        0 <= n <= propvars.len(),
    ensures
        -1 <= last_index(propvars, v, n) < n,
        last_index(propvars, v, n) >= 0 ==> propvars[last_index(propvars, v, n)] == v,
        last_index(propvars, v, n) >= 0 <==> exists|i: int| 0 <= i < n && propvars[i] == v,
    decreases n,
{
    if n > 0 {
        lemma_last_index(propvars, v, n - 1);
        if propvars[n - 1] != v && (exists|i: int| 0 <= i < n && propvars[i] == v) {
            let i = choose|i: int| 0 <= i < n && propvars[i] == v;
            assert(0 <= i < n - 1 && propvars[i] == v);
        }
    }
}

/// Hypotheses miss the empty set every time.
pub proof fn lemma_misses_empty(h: Seq<int>, n: int)
    requires
        0 <= n,
    ensures
        misses(h, Set::<int>::empty(), n) == n,
    decreases n,
{
    if n > 0 {
        lemma_misses_empty(h, n - 1);
    }
}

/// Proposition `q` is in order while the records are made, when those of
/// the first `i` clauses are made and those of the first `j` hypotheses of
/// clause `i`.
pub open spec fn built_prop(
    horn: Horn,
    props: Seq<Prop>,
    stack: Seq<PropId>,
    i: int,
    j: int,
    q: int,
) -> bool {
    &&& props[q].truth <==> on_stack(stack, q)
    &&& props[q].truth ==> horn.in_core(q)
    &&& records(props[q].last) == repeat(i, times(horn.hyps[i], q, j)) + horn.occ(q, i)
}

/// Clause `c` is in order while the records are made.
pub open spec fn built_clause(horn: Horn, props: Seq<Prop>, clauses: Seq<Clause>, c: int) -> bool {
    &&& clauses[c].conclusion.idx == horn.concl[c]
    &&& clauses[c].count == horn.hyps[c].len()
    &&& horn.hyps[c].len() == 0 ==> props[horn.concl[c]].truth
}

/// The state of the computation while the records are made.
pub open spec fn built(
    horn: Horn,
    props: Seq<Prop>,
    clauses: Seq<Clause>,
    stack: Seq<PropId>,
    i: int,
    j: int,
) -> bool {
    &&& horn.ok()
    &&& props.len() == horn.n
    &&& clauses.len() <= horn.hyps.len()
    &&& forall|c: int| 0 <= c < clauses.len() ==> #[trigger] built_clause(horn, props, clauses, c)
    &&& forall|q: int| 0 <= q < horn.n ==> #[trigger] built_prop(horn, props, stack, i, j, q)
    &&& forall|k: int|
        0 <= k < stack.len() ==> #[trigger] stack_ok(horn, stack, Set::<int>::empty(), k)
}

/// When every record is made, the work can start.
pub proof fn lemma_start(horn: Horn, props: Seq<Prop>, clauses: Seq<Clause>, stack: Seq<PropId>)
    requires
        built(horn, props, clauses, stack, horn.hyps.len() as int, 0),
        clauses.len() == horn.hyps.len(),
    ensures
        working(horn, props, clauses, stack, Set::<int>::empty(), Seq::<int>::empty()),
{
    let m = horn.hyps.len() as int;
    let d = Set::<int>::empty();
    let none = Seq::<int>::empty();
    assert forall|c: int| 0 <= c < m implies #[trigger] clause_ok(
        horn,
        props,
        clauses,
        d,
        none,
        c,
    ) by {
        assert(built_clause(horn, props, clauses, c));
        lemma_misses_empty(horn.hyps[c], horn.hyps[c].len() as int);
    }
    assert forall|q: int| 0 <= q < horn.n implies #[trigger] prop_ok(horn, props, stack, d, q) by {
        assert(built_prop(horn, props, stack, m, 0, q));
        assert(repeat(m, times(horn.hyps[m], q, 0)) + horn.occ(q, m) =~= horn.occ(q, m));
    }
}

/// The propositions of the core of the Horn clauses `input_clauses` over
/// the names `propvars`: when the computation ends, a proposition is true
/// exactly if it is in the core, the count of a clause is the number of
/// its hypotheses outside the core, and the propositions outside the
/// core still have their records.
pub fn core_computation(propvars: Vec<u64>, input_clauses: Vec<(Vec<u64>, u64)>) -> (r: (
    Vec<Prop>,
    Vec<Clause>,
))
    requires
        forall|c: int|
            0 <= c < input_clauses@.len() ==> propvars@.contains((#[trigger] input_clauses@[c]).1),
        forall|c: int, j: int|
            0 <= c < input_clauses@.len() && 0 <= j < input_clauses@[c].0@.len()
                ==> propvars@.contains(#[trigger] input_clauses@[c].0@[j]),
    ensures
        r.0@.len() == propvars@.len(),
        r.1@.len() == input_clauses@.len(),
        forall|q: int|
            0 <= q < propvars@.len() ==> (#[trigger] r.0@[q]).truth == model_of(
                propvars@,
                input_clauses@,
            ).in_core(q),
        forall|q: int|
            0 <= q < propvars@.len() ==> records((#[trigger] r.0@[q]).last) == if model_of(
                propvars@,
                input_clauses@,
            ).in_core(q) {
                Seq::<int>::empty()
            } else {
                model_of(propvars@, input_clauses@).occ(q, input_clauses@.len() as int)
            },
        forall|c: int|
            0 <= c < input_clauses@.len() ==> {
                let horn = model_of(propvars@, input_clauses@);
                &&& (#[trigger] r.1@[c]).conclusion.idx == horn.concl[c]
                &&& r.1@[c].count == misses(horn.hyps[c], horn.core_set(), horn.hyps[c].len() as int)
            },
{
    let ghost horn = model_of(propvars@, input_clauses@);
    let ghost n = propvars@.len() as int;
    let ghost m = input_clauses@.len() as int;
    let mut s: Vec<PropId> = Vec::new();
    let mut props: Vec<Prop> = Vec::new();
    let mut pmap: HashMap<u64, PropId> = HashMap::new();
    let mut i: usize = 0;
    while i < propvars.len()
        invariant
            0 <= i <= propvars.len(),
            props@.len() == i,
            forall|q: int| 0 <= q < i ==> !(#[trigger] props@[q]).truth && props@[q].last is None,
            forall|v: u64| #[trigger] pmap@.contains_key(v) <==> last_index(propvars@, v, i as int) >= 0,
            forall|v: u64|
                #[trigger] pmap@.contains_key(v) ==> pmap@[v].idx == last_index(
                    propvars@,
                    v,
                    i as int,
                ),
        decreases propvars.len() - i,
    {
        let v = propvars[i];
        let pi = PropId { idx: props.len() };
        props.push(Prop { truth: false, last: None });
        pmap.insert(v, pi);
        i = i + 1;
    }
    proof {
        assert forall|c: int| 0 <= c < m implies 0 <= #[trigger] horn.concl[c] < n by {
            lemma_last_index(propvars@, input_clauses@[c].1, n);
            let w = choose|w: int| 0 <= w < n && propvars@[w] == input_clauses@[c].1;
        }
        assert forall|c: int, j: int| 0 <= c < m && 0 <= j < horn.hyps[c].len() implies 0
            <= #[trigger] horn.hyps[c][j] < n by {
            lemma_last_index(propvars@, input_clauses@[c].0@[j], n);
            assert(propvars@.contains(input_clauses@[c].0@[j]));
            let w = choose|w: int| 0 <= w < n && propvars@[w] == input_clauses@[c].0@[j];
        }
        assert(horn.ok());
        assert forall|q: int| 0 <= q < n implies #[trigger] built_prop(
            horn,
            props@,
            s@,
            0,
            0,
            q,
        ) by {
            assert(records(props@[q].last) =~= repeat(0, times(horn.hyps[0], q, 0)) + horn.occ(
                q,
                0,
            ));
        }
    }
    let mut clauses: Vec<Clause> = Vec::new();
    let mut i: usize = 0;
    while i < input_clauses.len()
        invariant
            horn == model_of(propvars@, input_clauses@),
            n == propvars@.len(),
            m == input_clauses@.len(),
            forall|v: u64| #[trigger] pmap@.contains_key(v) <==> last_index(propvars@, v, n) >= 0,
            forall|v: u64| #[trigger] pmap@.contains_key(v) ==> pmap@[v].idx == last_index(propvars@, v, n),
            forall|c: int|
                0 <= c < input_clauses@.len() ==> propvars@.contains(
                    (#[trigger] input_clauses@[c]).1,
                ),
            forall|c: int, j: int|
                0 <= c < input_clauses@.len() && 0 <= j < input_clauses@[c].0@.len()
                    ==> propvars@.contains(#[trigger] input_clauses@[c].0@[j]),
            0 <= i <= m,
            clauses@.len() == i,
            built(horn, props@, clauses@, s@, i as int, 0),
        decreases input_clauses.len() - i,
    {
        let u_k = &input_clauses[i].0;
        let v = input_clauses[i].1;
        let ghost clauses_before = clauses@;
        proof {
            lemma_last_index(propvars@, v, n);
            assert(propvars@.contains(input_clauses@[i as int].1));
        }
        let vid = match pmap.get(&v) {
            Some(x) => *x,
            None => vstd::pervasive::unreached(),
        };
        let k = u_k.len();
        let c = Clause { conclusion: vid, count: k };
        let ci = ClauseId { idx: clauses.len() };
        clauses.push(c);
        let ghost props0 = props@;
        let ghost clauses0 = clauses@;
        let ghost stack0 = s@;
        proof {
            assert(horn.concl[i as int] == vid.idx);
            assert(horn.hyps[i as int].len() == k);
        }
        if k == 0 && !props[vid.idx].truth {
            props[vid.idx].truth = true;
            s.push(vid);
            proof {
                lemma_core_step(horn, i as int);
                assert forall|q: int| 0 <= q < n implies #[trigger] built_prop(
                    horn,
                    props@,
                    s@,
                    i + 1,
                    0,
                    q,
                ) by {
                    assert(built_prop(horn, props0, stack0, i as int, 0, q));
                    lemma_built_next(horn, q, i as int);
                    if on_stack(stack0, q) {
                        let w = choose|w: int|
                            0 <= w < stack0.len() && (#[trigger] stack0[w]).idx == q;
                        assert(s@[w].idx == q);
                    }
                    if on_stack(s@, q) && !on_stack(stack0, q) {
                        let w = choose|w: int| 0 <= w < s@.len() && (#[trigger] s@[w]).idx == q;
                        if w < stack0.len() {
                            assert(stack0[w].idx == q);
                        }
                    }
                    if q == vid.idx {
                        assert(s@[stack0.len() as int].idx == q);
                    }
                }
                assert forall|w: int| 0 <= w < s@.len() implies #[trigger] stack_ok(
                    horn,
                    s@,
                    Set::<int>::empty(),
                    w,
                ) by {
                    if w < stack0.len() {
                        assert(stack_ok(horn, stack0, Set::<int>::empty(), w));
                        assert(s@[w] == stack0[w]);
                        assert forall|w2: int| 0 <= w2 < w implies (#[trigger] s@[w2]).idx
                            != s@[w].idx by {
                            assert(s@[w2] == stack0[w2]);
                        }
                    } else {
                        assert(built_prop(horn, props0, stack0, i as int, 0, vid.idx as int));
                        assert forall|w2: int| 0 <= w2 < w implies (#[trigger] s@[w2]).idx
                            != s@[w].idx by {
                            assert(s@[w2] == stack0[w2]);
                            assert(on_stack(stack0, stack0[w2].idx as int));
                        }
                    }
                }
                assert forall|c2: int| 0 <= c2 < clauses@.len() implies #[trigger] built_clause(
                    horn,
                    props@,
                    clauses@,
                    c2,
                ) by {
                    if c2 < i {
                        assert(built_clause(horn, props0, clauses_before, c2));
                        assert(clauses@[c2] == clauses_before[c2]);
                    }
                }
            }
        } else {
            proof {
                assert forall|c2: int| 0 <= c2 < clauses@.len() implies #[trigger] built_clause(
                    horn,
                    props@,
                    clauses@,
                    c2,
                ) by {
                    if c2 < i {
                        assert(built_clause(horn, props0, clauses_before, c2));
                        assert(clauses@[c2] == clauses_before[c2]);
                    }
                }
            }
            let mut j: usize = 0;
            while j < u_k.len()
                invariant
                    horn == model_of(propvars@, input_clauses@),
                    n == propvars@.len(),
                    m == input_clauses@.len(),
                    forall|v: u64|
                        #[trigger] pmap@.contains_key(v) <==> last_index(propvars@, v, n) >= 0,
                    forall|v: u64|
                        #[trigger] pmap@.contains_key(v) ==> pmap@[v].idx == last_index(
                            propvars@,
                            v,
                            n,
                        ),
                    forall|c: int|
                        0 <= c < input_clauses@.len() ==> propvars@.contains(
                            (#[trigger] input_clauses@[c]).1,
                        ),
                    forall|c: int, j: int|
                        0 <= c < input_clauses@.len() && 0 <= j < input_clauses@[c].0@.len()
                            ==> propvars@.contains(#[trigger] input_clauses@[c].0@[j]),
                    0 <= i < m,
                    u_k == &input_clauses@[i as int].0,
                    0 <= j <= u_k.len(),
                    ci.idx == i,
                    clauses@.len() == i + 1,
                    built(horn, props@, clauses@, s@, i as int, j as int),
                decreases u_k.len() - j,
            {
                let u_j = u_k[j];
                proof {
                    lemma_last_index(propvars@, u_j, n);
                    assert(propvars@.contains(input_clauses@[i as int].0@[j as int]));
                }
                let pi = match pmap.get(&u_j) {
                    Some(x) => *x,
                    None => vstd::pervasive::unreached(),
                };
                let ghost props1 = props@;
                let mut l: Option<Box<Hypothesis>> = None;
                core::mem::swap(&mut props[pi.idx].last, &mut l);
                let h = Box::new(Hypothesis { clause: ci, prev: l });
                props[pi.idx].last = Some(h);
                proof {
                    assert(horn.hyps[i as int][j as int] == pi.idx);
                    assert forall|q: int| 0 <= q < n implies #[trigger] built_prop(
                        horn,
                        props@,
                        s@,
                        i as int,
                        j + 1,
                        q,
                    ) by {
                        assert(built_prop(horn, props1, s@, i as int, j as int, q));
                        let t = times(horn.hyps[i as int], q, j as int);
                        lemma_times_bounds(horn.hyps[i as int], q, j as int);
                        if q == pi.idx {
                            assert(records(props@[q].last) =~= seq![i as int] + records(
                                props1[q].last,
                            ));
                            assert(seq![i as int] + (repeat(i as int, t) + horn.occ(q, i as int))
                                =~= repeat(i as int, t + 1) + horn.occ(q, i as int));
                        }
                    }
                    assert forall|c2: int| 0 <= c2 < clauses@.len() implies #[trigger] built_clause(
                        horn,
                        props@,
                        clauses@,
                        c2,
                    ) by {
                        assert(built_clause(horn, props1, clauses@, c2));
                    }
                }
                j = j + 1;
            }
            proof {
                assert forall|q: int| 0 <= q < n implies #[trigger] built_prop(
                    horn,
                    props@,
                    s@,
                    i + 1,
                    0,
                    q,
                ) by {
                    assert(built_prop(horn, props@, s@, i as int, k as int, q));
                    lemma_built_next(horn, q, i as int);
                }
            }
        }
        i = i + 1;
    }
    proof {
        lemma_start(horn, props@, clauses@, s@);
    }
    let ghost mut d: Set<int> = Set::empty();
    if s.len() == 0 {
        proof {
            assert(s@ =~= Seq::<PropId>::empty());
            lemma_finish(horn, props@, clauses@, d);
        }
        return (props, clauses);
    }
    proof {
        lemma_step_next(
            horn,
            props@,
            clauses@,
            s@,
            d,
            props@.update(
                s@.last().idx as int,
                Prop { truth: props@[s@.last().idx as int].truth, last: None },
            ),
        );
        d = d.insert(s@.last().idx as int);
    }
    let mut p = match s.pop() {
        Some(x) => x,
        None => vstd::pervasive::unreached(),
    };
    let mut h: Option<Box<Hypothesis>> = None;
    core::mem::swap(&mut props[p.idx].last, &mut h);
    loop
        invariant
            horn == model_of(propvars@, input_clauses@),
            n == propvars@.len(),
            m == input_clauses@.len(),
            horn.n == n,
            working(horn, props@, clauses@, s@, d, records(h)),
            d.finite(),
            d.len() <= n,
        ensures
            working(horn, props@, clauses@, s@, d, Seq::<int>::empty()),
            s@.len() == 0,
        decreases n - d.len(), records(h).len(),
    {
        let hi = match h {
            None => {
                if s.len() == 0 {
                    h = None;
                    proof {
                        assert(records(h) =~= Seq::<int>::empty());
                    }
                    break ;
                }
                proof {
                    lemma_step_next(
                        horn,
                        props@,
                        clauses@,
                        s@,
                        d,
                        props@.update(
                            s@.last().idx as int,
                            Prop { truth: props@[s@.last().idx as int].truth, last: None },
                        ),
                    );
                    d = d.insert(s@.last().idx as int);
                }
                p = match s.pop() {
                    Some(x) => x,
                    None => vstd::pervasive::unreached(),
                };
                h = None;
                core::mem::swap(&mut props[p.idx].last, &mut h);
                continue ;
            },
            Some(hi) => hi,
        };
        let ghost h0 = seq![hi.clause.idx as int] + records(hi.prev);
        let ghost props0 = props@;
        let ghost clauses0 = clauses@;
        let ghost stack0 = s@;
        proof {
            assert(h0[0] == hi.clause.idx);
            assert(clause_ok(horn, props0, clauses0, d, h0, h0[0]));
            lemma_misses_none(horn.hyps[h0[0]], d, horn.hyps[h0[0]].len() as int);
            lemma_count_in_nonneg(h0.drop_first(), h0[0]);
        }
        let ci = hi.clause;
        clauses[ci.idx].count = clauses[ci.idx].count - 1;
        if clauses[ci.idx].count == 0 {
            let pi = clauses[ci.idx].conclusion;
            if !props[pi.idx].truth {
                props[pi.idx].truth = true;
                s.push(pi);
            }
        }
        proof {
            lemma_step_record(horn, props0, clauses0, stack0, d, h0, props@, clauses@, s@);
            assert(h0.drop_first() =~= records(hi.prev));
        }
        h = hi.prev;
    }
    proof {
        assert(s@ =~= Seq::<PropId>::empty());
        lemma_finish(horn, props@, clauses@, d);
    }
    (props, clauses)
}

/// When every hypothesis of a clause has its record, the records are those
/// for one clause more.
pub proof fn lemma_built_next(horn: Horn, q: int, i: int)
    requires
        0 <= i < horn.hyps.len(),
    ensures
        repeat(i, times(horn.hyps[i], q, horn.hyps[i].len() as int)) + horn.occ(q, i) == repeat(
            i + 1,
            times(horn.hyps[i + 1], q, 0),
        ) + horn.occ(q, i + 1),
{
    assert(repeat(i + 1, times(horn.hyps[i + 1], q, 0)) + horn.occ(q, i + 1) =~= horn.occ(
        q,
        i + 1,
    ));
}

} // verus!
