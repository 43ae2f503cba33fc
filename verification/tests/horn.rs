use dlx::horn::core_computation;

fn truths(propvars: Vec<u64>, clauses: Vec<(Vec<u64>, u64)>) -> (Vec<bool>, Vec<usize>) {
    let (props, cl) = core_computation(propvars, clauses);
    (props.iter().map(|p| p.truth).collect(), cl.iter().map(|c| c.count).collect())
}

#[test]
fn core_of_the_example() {
    // a; d => b; a and b => c; a => b   over a, b, c, d
    let (t, counts) = truths(
        vec![10, 20, 30, 40],
        vec![(vec![], 10), (vec![40], 20), (vec![10, 20], 30), (vec![10], 20)],
    );
    assert_eq!(t, vec![true, true, true, false]);
    assert_eq!(counts, vec![0, 1, 0, 0]);
}

#[test]
fn nothing_follows_without_a_fact() {
    let (t, counts) = truths(vec![1, 2], vec![(vec![1], 2), (vec![2], 1)]);
    assert_eq!(t, vec![false, false]);
    assert_eq!(counts, vec![1, 1]);
}

#[test]
fn records_stay_with_the_propositions_outside_the_core() {
    let (props, clauses) =
        core_computation(vec![1, 2, 3], vec![(vec![], 1), (vec![2, 2], 3), (vec![1, 2], 3)]);
    assert!(props[0].truth && !props[1].truth && !props[2].truth);
    assert!(props[0].last.is_none());
    let mut seen = vec![];
    let mut h = &props[1].last;
    while let Some(b) = h {
        seen.push(b.clause.idx);
        h = &b.prev;
    }
    assert_eq!(seen, vec![2, 1, 1]);
    assert!(props[2].last.is_none());
    let counts: Vec<usize> = clauses.iter().map(|c| c.count).collect();
    assert_eq!(counts, vec![0, 2, 1]);
    let concl: Vec<usize> = clauses.iter().map(|c| c.conclusion.idx).collect();
    assert_eq!(concl, vec![0, 2, 2]);
}

#[test]
fn a_name_given_twice_stands_for_the_later_proposition() {
    let (t, _) = truths(vec![7, 7, 8], vec![(vec![], 7), (vec![7], 8)]);
    assert_eq!(t, vec![false, true, true]);
}

#[test]
fn no_clauses_and_no_names() {
    let (t, c) = truths(vec![], vec![]);
    assert!(t.is_empty() && c.is_empty());
    let (t, c) = truths(vec![5], vec![]);
    assert_eq!(t, vec![false]);
    assert!(c.is_empty());
}

#[test]
fn a_chain_of_clauses() {
    let n = 50u64;
    let vars: Vec<u64> = (0..n).collect();
    let mut clauses: Vec<(Vec<u64>, u64)> = (1..n).map(|i| (vec![i - 1], i)).collect();
    clauses.push((vec![], 0));
    let (t, counts) = truths(vars, clauses);
    assert!(t.iter().all(|b| *b));
    assert!(counts.iter().all(|c| *c == 0));
}
