use dlx::dense::{
    choose_nonzero_col, find_solutions, recur, simple_exact_cover_instance_1,
    simple_exact_cover_instance_2, DenseChoice, FirstNonzero, Solution,
};
use dlx::exact_cover::{
    cols_on, rows_on, BitMatrix, ColLabelled, GenericColIter, GenericRowIter, Matrix, RowLabelled,
    ToBool,
};

fn small() -> Matrix<&'static str, usize> {
    Matrix {
        cols: vec!["x", "y", "z"],
        col_indent: String::from("  "),
        rows: vec!["p", "q"],
        elems: vec![1, 0, 2, 0, 0, 7],
    }
}

#[test]
fn cells_are_read_row_after_row() {
    let m = small();
    assert_eq!(*Matrix::at(&m, 0, 0), 1);
    assert_eq!(*Matrix::at(&m, 2, 0), 2);
    assert_eq!(*Matrix::at(&m, 2, 1), 7);
    assert_eq!(*Matrix::at(&m, 1, 1), 0);
    // a column past the width runs on into the next row
    assert_eq!(*Matrix::at(&m, 3, 0), 0);
    assert_eq!(*Matrix::at(&m, 5, 0), 7);
}

#[test]
fn put_writes_one_cell() {
    let mut m = small();
    m.put(1, 1, 9);
    assert_eq!(m.elems, vec![1, 0, 2, 0, 9, 7]);
    m.put(0, 0, 0);
    assert_eq!(m.elems, vec![0, 0, 2, 0, 9, 7]);
    assert_eq!(m.cols, vec!["x", "y", "z"]);
}

#[test]
fn bits_and_sizes() {
    let m = small();
    assert_eq!(m.num_cols(), 3);
    assert_eq!(m.num_rows(), 2);
    assert!(BitMatrix::at(&m, 0, 0));
    assert!(!BitMatrix::at(&m, 1, 0));
    assert!(BitMatrix::at(&m, 2, 1));
    assert!(!m.is_covered());
    assert_eq!(m.col(2), vec![true, true]);
    assert_eq!(m.col(1), vec![false, false]);
    assert_eq!(m.row(0), vec![true, false, true]);
    assert_eq!(m.row(1), vec![false, false, true]);
    assert_eq!(*m.col_label(1), "y");
    assert_eq!(*m.row_label(1), "q");
}

#[test]
fn to_bool_of_numbers() {
    assert!(true.to_bool());
    assert!(!false.to_bool());
    assert!(3usize.to_bool());
    assert!(!0usize.to_bool());
    assert!((-1isize).to_bool());
    assert!(!0isize.to_bool());
}

#[test]
fn rows_and_columns_with_bits() {
    let m = simple_exact_cover_instance_1();
    assert_eq!(rows_on(&m, 0), vec![1, 3]);
    assert_eq!(rows_on(&m, 3), vec![1, 3, 5]);
    assert_eq!(cols_on(&m, 0), vec![2, 4, 5]);
    assert_eq!(cols_on(&m, 4), vec![1, 6]);
    let e = Matrix { cols: vec!["a"], col_indent: String::new(), rows: vec!["r"], elems: vec![0usize] };
    assert_eq!(rows_on(&e, 0), Vec::<usize>::new());
    assert_eq!(cols_on(&e, 0), Vec::<usize>::new());
}

#[test]
fn walks_stop_at_the_end() {
    let m = simple_exact_cover_instance_1();
    let mut it = GenericRowIter { mat: &m, col: 6, cursor: 0 };
    assert_eq!(it.next(), Some(1));
    assert_eq!(it.cursor, 2);
    assert_eq!(it.next(), Some(4));
    assert_eq!(it.next(), Some(5));
    assert_eq!(it.next(), None);
    assert_eq!(it.cursor, 6);
    assert_eq!(it.next(), None);
    let mut it = GenericColIter { mat: &m, row: 3, cursor: 1 };
    assert_eq!(it.next(), Some(3));
    assert_eq!(it.next(), None);
    assert_eq!(it.cursor, 7);
}

#[test]
fn without_row_moves_the_rows_up() {
    let m = simple_exact_cover_instance_1();
    let w = m.without_row(1);
    assert_eq!(w.rows, vec!["1", "3", "4", "5", "6"]);
    assert_eq!(w.cols, m.cols);
    assert_eq!(w.elems.len(), 35);
    assert_eq!(&w.elems[0..7], &m.elems[0..7]);
    assert_eq!(&w.elems[7..35], &m.elems[14..42]);
    assert_eq!(w.col_indent, " ");
    let l = m.without_row(5);
    assert_eq!(l.elems, m.elems[0..35].to_vec());
}

#[test]
fn without_col_moves_the_columns_left() {
    let m = small();
    let w = m.without_col(1);
    assert_eq!(w.cols, vec!["x", "z"]);
    assert_eq!(w.rows, vec!["p", "q"]);
    assert_eq!(w.elems, vec![1, 2, 0, 7]);
    let w = m.without_col(2);
    assert_eq!(w.elems, vec![1, 0, 0, 0]);
    let w = m.without_col(0);
    assert_eq!(w.elems, vec![0, 2, 0, 7]);
    let one = Matrix { cols: vec!["a"], col_indent: String::new(), rows: vec!["r", "s"], elems: vec![1usize, 0] };
    let none = one.without_col(0);
    assert!(none.is_covered());
    assert_eq!(none.rows, vec!["r", "s"]);
    assert!(none.elems.is_empty());
}

#[test]
fn first_column_with_a_bit() {
    let m = simple_exact_cover_instance_1();
    assert_eq!(choose_nonzero_col(&m), Some(0));
    let z = Matrix { cols: vec!["a", "b", "c"], col_indent: String::new(), rows: vec!["r", "s"], elems: vec![0usize, 0, 0, 0, 0, 4] };
    assert_eq!(choose_nonzero_col(&z), Some(2));
    assert_eq!(FirstNonzero.select(&z), 2);
    let n = Matrix { cols: vec!["a", "b"], col_indent: String::new(), rows: vec!["r"], elems: vec![0usize, 0] };
    assert_eq!(choose_nonzero_col(&n), None);
    assert_eq!(FirstNonzero.select(&n), 0);
}

#[test]
fn a_component_is_included_once() {
    let s: Vec<String> = vec![];
    let s = s.include_part(&"a");
    let s = s.include_part(&"b");
    assert_eq!(s, vec!["a".to_string(), "b".to_string()]);
    let t = s.include_part(&"a");
    assert_eq!(t, vec!["a".to_string(), "b".to_string()]);
    let u = t.include_part(&"c".to_string());
    assert_eq!(u, vec!["a".to_string(), "b".to_string(), "c".to_string()]);
    assert_eq!(Solution::<&'static str>::duplicate(&u), u);
}

#[test]
fn plain_solver_finds_the_cover_of_the_example() {
    let m = simple_exact_cover_instance_1();
    let none: Vec<String> = vec![];
    let solns = find_solutions(&m, &none, &FirstNonzero);
    assert_eq!(solns, vec![vec!["4".to_string(), "5".to_string(), "1".to_string()]]);
    let mut sorted = solns[0].clone();
    sorted.sort();
    assert_eq!(sorted, vec!["1", "4", "5"]);
}

#[test]
fn plain_solver_chooses_every_row_of_the_unit_matrix() {
    let m = Matrix {
        cols: vec!["a", "b", "c"],
        col_indent: String::new(),
        rows: vec!["p", "q", "r"],
        elems: vec![1usize, 0, 0, 0, 1, 0, 0, 0, 1],
    };
    let none: Vec<String> = vec![];
    let solns = find_solutions(&m, &none, &FirstNonzero);
    assert_eq!(solns.len(), 1);
    assert_eq!(solns[0], vec!["p".to_string(), "q".to_string(), "r".to_string()]);
}

#[test]
fn plain_solver_finds_nothing_where_nothing_covers() {
    let m = simple_exact_cover_instance_2();
    let none: Vec<String> = vec![];
    assert_eq!(find_solutions(&m, &none, &FirstNonzero), Vec::<Vec<String>>::new());
    assert_eq!(recur(3, &m, &none, &FirstNonzero), Vec::<Vec<String>>::new());
}

#[test]
fn covered_matrix_gives_the_partial_solution() {
    let m: Matrix<&'static str, usize> =
        Matrix { cols: vec![], col_indent: String::new(), rows: vec!["r"], elems: vec![] };
    let part = vec!["k".to_string()];
    assert_eq!(recur(0, &m, &part, &FirstNonzero), vec![vec!["k".to_string()]]);
}

#[test]
fn sample_problems_are_as_given() {
    let m = simple_exact_cover_instance_1();
    assert_eq!(m.cols, vec!["a", "b", "c", "d", "e", "f", "g"]);
    assert_eq!(m.rows, vec!["1", "2", "3", "4", "5", "6"]);
    assert_eq!(m.col_indent, " ");
    assert_eq!(m.elems.iter().sum::<usize>(), 16);
    let m = simple_exact_cover_instance_2();
    assert_eq!(m.cols, vec!["1", "2", "3"]);
    assert_eq!(m.rows, vec!["   a", "   b"]);
    assert_eq!(m.col_indent, "    ");
    assert_eq!(m.elems, vec![0, 1, 1, 1, 1, 0]);
}

#[test]
fn matrix_is_written_with_its_labels() {
    let m = small();
    assert_eq!(m.render(), "\n  ( x y z |\np| 1 0 2 |\nq| 0 0 7 )");
    let e: Matrix<&'static str, usize> =
        Matrix { cols: vec![], col_indent: String::from(" "), rows: vec!["r"], elems: vec![] };
    assert_eq!(e.render(), "\n ( )");
    let b = Matrix { cols: vec!["c"], col_indent: String::new(), rows: vec!["r"], elems: vec![true] };
    assert_eq!(b.render(), "\n( c |\nr| true )");
}

#[test]
fn duplicate_copies_every_field() {
    let m = small();
    let d = m.duplicate();
    assert_eq!(d.cols, m.cols);
    assert_eq!(d.rows, m.rows);
    assert_eq!(d.elems, m.elems);
    assert_eq!(d.col_indent, m.col_indent);
}
