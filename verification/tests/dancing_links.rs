use dlx::dancing_links::{Cf, Df, Dlx, DlxMatrix, CR, DC};
use dlx::dense::{
    find_solutions, simple_exact_cover_instance_1, simple_exact_cover_instance_2, FirstNonzero,
};
use dlx::exact_cover::Matrix;
use dlx::search::{
    min_branching_col_choice, trivial_col_choice, ColumnChoice, FirstAvailable, MinimumSize,
};

fn matrix(
    cols: Vec<&'static str>,
    rows: Vec<&'static str>,
    elems: Vec<usize>,
) -> Matrix<&'static str, usize> {
    Matrix { cols: cols, col_indent: String::from(" "), rows: rows, elems: elems }
}

fn engine(input: &Matrix<&'static str, usize>) -> Dlx<&'static str> {
    Dlx { m: DlxMatrix::new(input), soln: vec![], solutions: vec![] }
}

fn rows_of(dlx: &Dlx<&'static str>, sol: &Vec<Df>) -> Vec<usize> {
    let mut rows: Vec<usize> = sol.iter().map(|d| d.row(&dlx.m)).collect();
    rows.sort();
    rows
}

fn solve<H: ColumnChoice<&'static str>>(
    input: &Matrix<&'static str, usize>,
    h: &H,
) -> Vec<Vec<usize>> {
    let mut dlx = engine(input);
    dlx.search(0, h);
    let mut out: Vec<Vec<usize>> = dlx.solutions.iter().map(|s| rows_of(&dlx, s)).collect();
    out.sort();
    out
}

type Links = (Vec<(usize, usize, DC, DC, usize)>, Vec<(CR, CR, DC, DC, usize, usize)>, (CR, CR));

fn links(m: &DlxMatrix<&'static str>) -> Links {
    let data = (0..m.data.len())
        .map(|i| {
            let d = Df(i);
            (d.L(m).0, d.R(m).0, d.U(m), d.D(m), d.C(m).0)
        })
        .collect();
    let cols = (0..m.cols.len())
        .map(|i| {
            let c = Cf(i);
            (c.L(m), c.R(m), c.U(m), c.D(m), m.cols[i].c.0, m.cols[i].s)
        })
        .collect();
    (data, cols, (m.root.l, m.root.r))
}

fn ring_of(m: &DlxMatrix<&'static str>, c: Cf) -> Vec<Df> {
    let mut out = vec![];
    let mut x = c.D(m);
    loop {
        match x {
            DC::Cdc(h) => {
                assert_eq!(h, c);
                break;
            }
            DC::Ddc(d) => {
                out.push(d);
                assert!(out.len() <= m.data.len());
                x = d.D(m);
            }
        }
    }
    out
}

fn header_ring(m: &DlxMatrix<&'static str>) -> Vec<Cf> {
    let mut out = vec![];
    let mut x = m.root.r;
    loop {
        match x {
            CR::Rootcr => break,
            CR::Ccr(c) => {
                out.push(c);
                assert!(out.len() <= m.cols.len());
                x = c.R(m);
            }
        }
    }
    out
}

fn row_ring(m: &DlxMatrix<&'static str>, d: Df) -> Vec<Df> {
    let mut out = vec![d];
    let mut x = d.R(m);
    while x != d {
        out.push(x);
        assert!(out.len() <= m.data.len());
        x = x.R(m);
    }
    out
}

fn counts_match_rings(m: &DlxMatrix<&'static str>) {
    for i in 0..m.cols.len() {
        let ring = ring_of(m, Cf(i));
        assert_eq!(m.cols[i].s, ring.len());
        let mut up = vec![];
        let mut x = Cf(i).U(m);
        while let DC::Ddc(d) = x {
            up.push(d);
            x = d.U(m);
        }
        up.reverse();
        assert_eq!(up, ring);
        for d in ring {
            assert_eq!(d.C(m), Cf(i));
        }
    }
}

#[test]
fn knuth_example_has_one_solution() {
    let input = simple_exact_cover_instance_1();
    let mut dlx = engine(&input);
    dlx.search(0, &MinimumSize);
    assert_eq!(dlx.solutions.len(), 1);
    assert_eq!(rows_of(&dlx, &dlx.solutions[0]), vec![0, 3, 4]);
    let labels: Vec<&str> =
        rows_of(&dlx, &dlx.solutions[0]).iter().map(|r| input.rows[*r]).collect();
    assert_eq!(labels, vec!["1", "4", "5"]);
    assert!(dlx.soln.is_empty());
    assert_eq!(solve(&input, &FirstAvailable), vec![vec![0, 3, 4]]);
}

#[test]
fn knuth_example_solution_covers_each_column_once() {
    let input = simple_exact_cover_instance_1();
    let mut dlx = engine(&input);
    dlx.search(0, &FirstAvailable);
    let mut hit = vec![0; 7];
    for d in &dlx.solutions[0] {
        for c in dlx.row_containing(*d) {
            hit[c.0] += 1;
        }
    }
    assert_eq!(hit, vec![1; 7]);
}

#[test]
fn first_available_finds_rows_in_order_of_choice() {
    let input = simple_exact_cover_instance_1();
    let mut dlx = engine(&input);
    dlx.search(0, &FirstAvailable);
    let chosen: Vec<usize> = dlx.solutions[0].iter().map(|d| d.row(&dlx.m)).collect();
    assert_eq!(chosen, vec![3, 4, 0]);
    let first = dlx.row_containing(dlx.solutions[0][0]);
    assert_eq!(first, vec![Cf(0), Cf(3)]);
}

#[test]
fn no_cover_gives_no_solution() {
    let input = simple_exact_cover_instance_2();
    assert_eq!(solve(&input, &FirstAvailable), Vec::<Vec<usize>>::new());
    assert_eq!(solve(&input, &MinimumSize), Vec::<Vec<usize>>::new());
}

#[test]
fn single_full_row_is_the_solution() {
    let input = matrix(vec!["a", "b", "c"], vec!["r"], vec![1, 1, 1]);
    assert_eq!(solve(&input, &FirstAvailable), vec![vec![0]]);
    assert_eq!(solve(&input, &MinimumSize), vec![vec![0]]);
}

#[test]
fn column_without_entries_gives_no_solution() {
    let input = matrix(vec!["a", "b"], vec!["r", "s"], vec![1, 0, 1, 0]);
    assert_eq!(solve(&input, &FirstAvailable), Vec::<Vec<usize>>::new());
    assert_eq!(solve(&input, &MinimumSize), Vec::<Vec<usize>>::new());
}

#[test]
fn matrix_without_rows_gives_no_solution() {
    let input = matrix(vec!["a", "b"], vec![], vec![]);
    assert_eq!(solve(&input, &FirstAvailable), Vec::<Vec<usize>>::new());
}

#[test]
fn several_solutions_are_all_found() {
    // rows 0 and 1 are equal; rows {0,2}, {1,2} and {3} cover
    let input = matrix(
        vec!["a", "b", "c"],
        vec!["p", "q", "r", "s"],
        vec![1, 1, 0, 1, 1, 0, 0, 0, 1, 1, 1, 1],
    );
    let want = vec![vec![0, 2], vec![1, 2], vec![3]];
    assert_eq!(solve(&input, &FirstAvailable), want);
    assert_eq!(solve(&input, &MinimumSize), want);
    let mut dlx = engine(&input);
    dlx.search(0, &FirstAvailable);
    let order: Vec<Vec<usize>> =
        dlx.solutions.iter().map(|s| s.iter().map(|d| d.row(&dlx.m)).collect()).collect();
    assert_eq!(order, vec![vec![0, 2], vec![1, 2], vec![3]]);
}

#[test]
fn cover_then_uncover_restores_every_link_and_count() {
    let input = simple_exact_cover_instance_1();
    let mut dlx = engine(&input);
    for i in 0..7 {
        let before = links(&dlx.m);
        dlx.cover(Cf(i));
        assert_ne!(links(&dlx.m), before);
        dlx.uncover(Cf(i));
        assert_eq!(links(&dlx.m), before);
    }
}

#[test]
fn nested_covers_are_undone_in_reverse() {
    let input = simple_exact_cover_instance_1();
    let mut dlx = engine(&input);
    let s0 = links(&dlx.m);
    dlx.cover(Cf(0));
    let s1 = links(&dlx.m);
    dlx.cover(Cf(1));
    let s2 = links(&dlx.m);
    dlx.cover(Cf(4));
    counts_match_rings(&dlx.m);
    dlx.uncover(Cf(4));
    assert_eq!(links(&dlx.m), s2);
    dlx.uncover(Cf(1));
    assert_eq!(links(&dlx.m), s1);
    dlx.uncover(Cf(0));
    assert_eq!(links(&dlx.m), s0);
}

#[test]
fn search_leaves_the_matrix_as_it_was() {
    let input = simple_exact_cover_instance_1();
    let mut dlx = engine(&input);
    let before = links(&dlx.m);
    dlx.search(0, &MinimumSize);
    assert_eq!(links(&dlx.m), before);
    dlx.search(0, &FirstAvailable);
    assert_eq!(links(&dlx.m), before);
    assert_eq!(dlx.solutions.len(), 2);
}

#[test]
fn search_keeps_the_stack_below_its_depth() {
    let input = simple_exact_cover_instance_1();
    let mut dlx = engine(&input);
    // row 3 (columns a and d) is chosen by hand: its columns are covered
    dlx.cover(Cf(0));
    dlx.cover(Cf(3));
    dlx.soln = vec![Df(1), Df(0)];
    dlx.search(1, &FirstAvailable);
    assert_eq!(dlx.soln, vec![Df(1)]);
    assert_eq!(dlx.solutions.len(), 1);
    assert_eq!(dlx.solutions[0][0], Df(1));
    let rest: Vec<usize> = dlx.solutions[0][1..].iter().map(|d| d.row(&dlx.m)).collect();
    assert_eq!(rest, vec![4, 0]);
}

#[test]
fn counts_are_ring_lengths_in_every_state() {
    let input = simple_exact_cover_instance_1();
    let mut dlx = engine(&input);
    counts_match_rings(&dlx.m);
    let counts: Vec<usize> = dlx.m.cols.iter().map(|c| c.s).collect();
    assert_eq!(counts, vec![2, 2, 2, 3, 2, 2, 3]);
    dlx.cover(Cf(3));
    counts_match_rings(&dlx.m);
    dlx.cover(Cf(2));
    counts_match_rings(&dlx.m);
    dlx.uncover(Cf(2));
    counts_match_rings(&dlx.m);
    dlx.uncover(Cf(3));
    counts_match_rings(&dlx.m);
    dlx.search(0, &MinimumSize);
    counts_match_rings(&dlx.m);
}

#[test]
fn cover_takes_one_from_each_other_column_of_its_rows() {
    // column d of the example has three entries, in rows 1, 3 and 5
    let input = simple_exact_cover_instance_1();
    let mut dlx = engine(&input);
    let entries = ring_of(&dlx.m, Cf(3));
    let rows: Vec<usize> = entries.iter().map(|d| d.row(&dlx.m)).collect();
    assert_eq!(rows, vec![1, 3, 5]);
    let before: Vec<usize> = dlx.m.cols.iter().map(|c| c.s).collect();
    let row_rings: Vec<Vec<Df>> = entries.iter().map(|d| row_ring(&dlx.m, *d)).collect();
    dlx.cover(Cf(3));
    let after: Vec<usize> = dlx.m.cols.iter().map(|c| c.s).collect();
    // rows 1 and 3 have an entry in a, rows 1 and 5 in g, row 5 in e
    assert_eq!(before, vec![2, 2, 2, 3, 2, 2, 3]);
    assert_eq!(after, vec![0, 2, 2, 3, 1, 2, 1]);
    assert_eq!(header_ring(&dlx.m), vec![Cf(0), Cf(1), Cf(2), Cf(4), Cf(5), Cf(6)]);
    assert_eq!(ring_of(&dlx.m, Cf(3)), entries);
    for (d, ring) in entries.iter().zip(row_rings.iter()) {
        assert_eq!(&row_ring(&dlx.m, *d), ring);
        let mut back = vec![*d];
        let mut x = d.L(&dlx.m);
        while x != *d {
            back.push(x);
            x = x.L(&dlx.m);
        }
        back[1..].reverse();
        assert_eq!(&back, ring);
    }
    assert_eq!(ring_of(&dlx.m, Cf(0)), vec![]);
    assert_eq!(ring_of(&dlx.m, Cf(6)).len(), 1);
    assert_eq!(ring_of(&dlx.m, Cf(6))[0].row(&dlx.m), 4);
}

#[test]
fn strategies_agree_on_the_set_of_solutions() {
    let inputs = vec![
        simple_exact_cover_instance_1(),
        simple_exact_cover_instance_2(),
        matrix(vec!["a", "b"], vec!["p", "q", "r", "s"], vec![1, 0, 0, 1, 1, 1, 1, 0]),
        matrix(
            vec!["a", "b", "c", "d"],
            vec!["p", "q", "r", "s", "t", "u"],
            vec![1, 1, 0, 0, 0, 0, 1, 1, 1, 0, 1, 0, 0, 1, 0, 1, 1, 1, 1, 1, 0, 0, 0, 1],
        ),
    ];
    for input in inputs {
        let first = solve(&input, &FirstAvailable);
        let least = solve(&input, &MinimumSize);
        assert_eq!(first, least);
        let dense = find_solutions(&input, &Vec::<String>::new(), &FirstNonzero);
        assert_eq!(dense.len(), first.len());
    }
    let input = matrix(vec!["a", "b"], vec!["p", "q", "r", "s"], vec![1, 0, 0, 1, 1, 1, 1, 0]);
    assert_eq!(solve(&input, &MinimumSize), vec![vec![0, 1], vec![1, 3], vec![2]]);
}

#[test]
fn building_twice_gives_the_same_rings() {
    let input = simple_exact_cover_instance_1();
    let a = DlxMatrix::new(&input);
    let b = DlxMatrix::new(&input);
    assert_eq!(links(&a), links(&b));
    assert_eq!(a.row_of, b.row_of);
    assert_eq!(header_ring(&a), header_ring(&b));
}

#[test]
fn built_matrix_has_the_cells_of_the_input() {
    let input = simple_exact_cover_instance_1();
    let m = DlxMatrix::new(&input);
    assert_eq!(header_ring(&m), (0..7).map(Cf).collect::<Vec<Cf>>());
    assert_eq!(m.root.l, CR::Ccr(Cf(6)));
    assert_eq!(m.data.len(), 16);
    let labels: Vec<&str> = m.cols.iter().map(|c| c.n).collect();
    assert_eq!(labels, vec!["a", "b", "c", "d", "e", "f", "g"]);
    for c in 0..7 {
        let rows: Vec<usize> = ring_of(&m, Cf(c)).iter().map(|d| d.row(&m)).collect();
        let want: Vec<usize> = (0..6).filter(|r| input.elems[r * 7 + c] != 0).collect();
        assert_eq!(rows, want);
    }
    // entries are numbered column after column
    assert_eq!(ring_of(&m, Cf(0)), vec![Df(0), Df(1)]);
    assert_eq!(ring_of(&m, Cf(1)), vec![Df(2), Df(3)]);
    assert_eq!(ring_of(&m, Cf(6)), vec![Df(13), Df(14), Df(15)]);
    // row 0 holds columns c, e and f
    let row0 = row_ring(&m, Df(4));
    let cols0: Vec<usize> = row0.iter().map(|d| d.C(&m).0).collect();
    assert_eq!(cols0, vec![2, 4, 5]);
    assert_eq!(Df(4).L(&m).C(&m), Cf(5));
    counts_match_rings(&m);
}

#[test]
fn empty_column_points_at_itself() {
    let input = matrix(vec!["a", "b"], vec!["r"], vec![0, 1]);
    let m = DlxMatrix::new(&input);
    assert_eq!(Cf(0).D(&m), DC::Cdc(Cf(0)));
    assert_eq!(Cf(0).U(&m), DC::Cdc(Cf(0)));
    assert_eq!(m.cols[0].s, 0);
    assert_eq!(Cf(1).D(&m), DC::Ddc(Df(0)));
    assert_eq!(Df(0).L(&m), Df(0));
    assert_eq!(Df(0).R(&m), Df(0));
    assert_eq!(Df(0).U(&m), DC::Cdc(Cf(1)));
    assert_eq!(Df(0).D(&m), DC::Cdc(Cf(1)));
}

#[test]
fn strategies_choose_as_described() {
    let input = simple_exact_cover_instance_1();
    let mut dlx = engine(&input);
    assert_eq!(trivial_col_choice(&dlx.m), Cf(0));
    // all counts are 2 or 3: the first with 2 is a
    assert_eq!(min_branching_col_choice(&dlx.m), Cf(0));
    dlx.cover(Cf(0));
    assert_eq!(trivial_col_choice(&dlx.m), Cf(1));
    // d and g have lost an entry each: row 1; d was 3, g was 3; counts now b2 c2 d1 e2 f2 g2
    let counts: Vec<usize> = dlx.m.cols.iter().map(|c| c.s).collect();
    assert_eq!(counts, vec![2, 2, 2, 1, 2, 2, 2]);
    assert_eq!(min_branching_col_choice(&dlx.m), Cf(3));
    assert_eq!(FirstAvailable.select(&dlx.m), Cf(1));
    assert_eq!(MinimumSize.select(&dlx.m), Cf(3));
}

#[test]
fn count_can_be_written_through_its_accessor() {
    let input = simple_exact_cover_instance_1();
    let mut m = DlxMatrix::new(&input);
    *Cf(2).S(&mut m) += 5;
    assert_eq!(m.cols[2].s, 7);
    Df(0).update_l(&mut m, Df(3));
    assert_eq!(Df(0).L(&m), Df(3));
    CR::Rootcr.update_r(&mut m, CR::Ccr(Cf(4)));
    assert_eq!(m.root.r, CR::Ccr(Cf(4)));
    DC::Cdc(Cf(1)).update_d(&mut m, DC::Ddc(Df(9)));
    assert_eq!(Cf(1).D(&m), DC::Ddc(Df(9)));
}

#[test]
fn chosen_rows_carry_the_labels_of_the_input() {
    let input = simple_exact_cover_instance_1();
    let mut dlx = engine(&input);
    assert_eq!(dlx.m.row_labels, vec!["1", "2", "3", "4", "5", "6"]);
    dlx.search(0, &MinimumSize);
    assert_eq!(dlx.solutions.len(), 1);
    let mut labels: Vec<&str> = dlx.solutions[0].iter().map(|d| *d.row_label(&dlx.m)).collect();
    labels.sort();
    assert_eq!(labels, vec!["1", "4", "5"]);
    for d in 0..dlx.m.data.len() {
        assert_eq!(*Df(d).row_label(&dlx.m), input.rows[Df(d).row(&dlx.m)]);
    }
}
