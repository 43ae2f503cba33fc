use dlx::mat::{
    build_matrix, build_matrix_data, char_range, count_char_frequency, filled_vec,
    find_a_saddle_point, find_cell_size, generate_magic_square, padleft, print_char_frequency,
    Mat,
};

#[test]
fn get_and_set() {
    let mut m = Mat { rows: 2, cols: 3, data: vec![1, 2, 3, 4, 5, 6] };
    assert_eq!(m.get(0, 0), 1);
    assert_eq!(m.get(1, 0), 4);
    assert_eq!(m.get(1, 2), 6);
    m.set(0, 2, 9);
    assert_eq!(m.data, vec![1, 2, 9, 4, 5, 6]);
    assert_eq!((m.rows, m.cols), (2, 3));
}

#[test]
fn built_matrices() {
    let d = build_matrix_data(2, 3, &|i, j| 10 * i + j);
    assert_eq!(d, vec![0, 1, 2, 10, 11, 12]);
    let m = build_matrix(3, 2, &|i, j| (i, j));
    assert_eq!((m.rows, m.cols), (3, 2));
    assert_eq!(m.data, vec![(0, 0), (0, 1), (1, 0), (1, 1), (2, 0), (2, 1)]);
    let e = build_matrix(0, 5, &|i, _j| i);
    assert!(e.data.is_empty());
}

#[test]
fn saddle_points() {
    // 9 7 8 / 6 5 4 / 3 2 1 : the least of row 0 is 7, the greatest of column 1
    let m = Mat { rows: 3, cols: 3, data: vec![9, 7, 8, 6, 5, 4, 3, 2, 1] };
    assert_eq!(find_a_saddle_point(&m), Some((0, 1)));
    let n = Mat { rows: 2, cols: 2, data: vec![1, 2, 2, 1] };
    assert_eq!(find_a_saddle_point(&n), None);
    let c = Mat { rows: 2, cols: 2, data: vec![5, 5, 5, 5] };
    assert_eq!(find_a_saddle_point(&c), Some((0, 0)));
    let e: Mat<isize> = Mat { rows: 0, cols: 0, data: vec![] };
    assert_eq!(find_a_saddle_point(&e), None);
    let one = Mat { rows: 1, cols: 1, data: vec![-3] };
    assert_eq!(find_a_saddle_point(&one), Some((0, 0)));
    let m = build_matrix(9, 8, &|i, j| {
        (i as isize) * (2 * ((i % 2) as isize) - 1) + (j as isize) * (2 * ((j % 2) as isize) - 1)
    });
    assert_eq!(find_a_saddle_point(&m), Some((7, 6)));
    assert_eq!(m.get(7, 6), 1);
    let l = Mat { rows: 2, cols: 3, data: vec![4, 1, 3, 2, 0, 5] };
    assert_eq!(find_a_saddle_point(&l), Some((0, 1)));
}

#[test]
fn filled_vector_has_256_elements() {
    assert_eq!(filled_vec(3, 7u8), vec![7u8; 256]);
    assert_eq!(filled_vec(1000, 'x').len(), 256);
}

#[test]
fn frequencies_of_bytes() {
    let f = count_char_frequency(&b"abcaabeASfkjanfakjcnkajwqdkjfwqekjAA".to_vec());
    assert_eq!(f.len(), 256);
    assert_eq!(f[b'a' as usize], 6);
    assert_eq!(f[b'A' as usize], 3);
    assert_eq!(f[b'z' as usize], 0);
    assert_eq!(f.iter().sum::<usize>(), 36);
    let lines = print_char_frequency(&f);
    assert_eq!(lines[0], ('a', 6));
    assert_eq!(lines[1], ('b', 2));
    assert_eq!(lines.last(), Some(&('S', 1)));
    assert!(lines.iter().all(|(_, n)| *n > 0));
    let e = count_char_frequency(&vec![]);
    assert_eq!(e, vec![0; 256]);
    assert!(print_char_frequency(&e).is_empty());
    // the last character of each range is left out
    let z = count_char_frequency(&b"9zZ05".to_vec());
    assert_eq!(print_char_frequency(&z), vec![('0', 1), ('5', 1)]);
}

#[test]
fn ranges_of_characters() {
    assert_eq!(char_range('0', '9'), vec!['0', '1', '2', '3', '4', '5', '6', '7', '8']);
    assert_eq!(char_range('a', 'a'), Vec::<char>::new());
    assert_eq!(char_range('b', 'a'), Vec::<char>::new());
    assert_eq!(char_range('\u{E000}', '\u{E002}'), vec!['\u{E000}', '\u{E001}']);
}

#[test]
fn magic_squares() {
    let m = generate_magic_square(3);
    assert_eq!((m.rows, m.cols), (3, 3));
    assert_eq!(m.data, vec![4, 9, 2, 3, 5, 7, 8, 1, 6]);
    let m = generate_magic_square(5);
    let mut seen = m.data.clone();
    seen.sort();
    assert_eq!(seen, (1..=25).collect::<Vec<usize>>());
    for i in 0..5 {
        assert_eq!((0..5).map(|j| m.get(i, j)).sum::<usize>(), 65);
        assert_eq!((0..5).map(|j| m.get(j, i)).sum::<usize>(), 65);
    }
    let e = generate_magic_square(0);
    assert!(e.data.is_empty());
}

#[test]
fn padding_on_the_left() {
    assert_eq!(padleft(String::from("7"), 3, " "), "  7");
    assert_eq!(padleft(String::from("1234"), 3, " "), "1234");
    assert_eq!(padleft(String::from("x"), 4, "ab"), "ababx");
    assert_eq!(padleft(String::new(), 0, "-"), "");
    assert_eq!(padleft(String::from("x"), 2, "abc"), "abcx");
}

#[test]
fn matrix_as_text() {
    let m = Mat { rows: 2, cols: 3, data: vec![1, -20, 3, 4, 5, 600] };
    assert_eq!(find_cell_size(&m), 3);
    assert_eq!(m.to_str(), "[   1, -20,   3 |\n|   4,   5, 600 ]");
    let one = Mat { rows: 1, cols: 1, data: vec![0] };
    assert_eq!(find_cell_size(&one), 1);
    assert_eq!(one.to_str(), "[ 0 ]");
    let e: Mat<isize> = Mat { rows: 0, cols: 0, data: vec![] };
    assert_eq!(find_cell_size(&e), 1);
    assert_eq!(e.to_str(), "[ ");
    let magic = generate_magic_square(3);
    let m = Mat { rows: 3, cols: 3, data: magic.data.iter().map(|x| *x as isize).collect() };
    assert_eq!(m.to_str(), "[ 4, 9, 2 |\n| 3, 5, 7 |\n| 8, 1, 6 ]");
}
