use dlx::latin_squares::{
    find_tranversals_extending, holds, El, LGSquare, LatinSquareElem, Square,
};

#[test]
fn elements_have_two_symbols() {
    assert_eq!((3usize, 4usize).latin(), 3);
    assert_eq!((3usize, 4usize).greek(), 4);
    assert_eq!(El(5, 6).latin(), 5);
    assert_eq!(El(5, 6).greek(), 6);
}

#[test]
fn side_and_places() {
    let s = LGSquare { contents: vec![10usize, 11, 12, 13, 14, 15, 16, 17, 18] };
    assert_eq!(s.dim(), 3);
    assert_eq!(*s.at(0, 0), 10);
    assert_eq!(*s.at(1, 2), 15);
    assert_eq!(*s.at(2, 1), 17);
    assert_eq!(s.contents(), &[10, 11, 12, 13, 14, 15, 16, 17, 18]);
    let e: LGSquare<usize> = LGSquare { contents: vec![] };
    assert_eq!(e.dim(), 0);
    let one = LGSquare { contents: vec![7usize] };
    assert_eq!(one.dim(), 1);
}

#[test]
fn walks_along_rows_and_columns() {
    let s = LGSquare { contents: vec![10usize, 11, 12, 13, 14, 15, 16, 17, 18] };
    let mut r = s.row_iter(1);
    assert_eq!(r.next(), Some(&13));
    assert_eq!(r.next(), Some(&14));
    assert_eq!(r.next(), Some(&15));
    assert_eq!(r.next(), None);
    assert_eq!(r.idx, 3);
    let mut c = s.col_iter(2);
    assert_eq!(c.next(), Some(&12));
    assert_eq!(c.next(), Some(&15));
    assert_eq!(c.next(), Some(&18));
    assert_eq!(c.next(), None);
}

#[test]
fn generated_square_and_swap() {
    let mut s = LGSquare::new(3, vec!['a', 'b', 'c'], vec!["x", "y", "z"], |i, j| El(i, j));
    assert_eq!(s.contents.len(), 9);
    assert_eq!(s.contents[5], El(1, 2));
    assert_eq!(s.contents[6], El(2, 0));
    s.swap(1, 5);
    assert_eq!(s.contents[1], El(1, 2));
    assert_eq!(s.contents[5], El(0, 1));
    s.swap(4, 4);
    assert_eq!(s.contents[4], El(1, 1));
    let e = LGSquare::new(0, Vec::<u8>::new(), Vec::<u8>::new(), |i, j| El(i, j));
    assert!(e.contents.is_empty());
}

#[test]
fn product_pairs_the_places() {
    let a = LGSquare { contents: vec![1usize, 2, 3, 4] };
    let b = LGSquare { contents: vec![5usize, 6, 7, 8] };
    let p = a.product(&b);
    assert_eq!(p.contents, vec![(1, 5), (2, 6), (3, 7), (4, 8)]);
    let short = LGSquare { contents: vec![9usize] };
    assert_eq!(a.product(&short).contents, vec![(1, 9)]);
}

#[test]
fn only_the_square_without_elements_passes_the_test() {
    let s = LGSquare::new(3, vec![0, 1, 2], vec![0, 1, 2], |i, j| El((i + j) % 3, (i + 2 * j) % 3));
    assert!(!s.is_latin());
    let one = LGSquare { contents: vec![El(0, 0)] };
    assert!(!one.is_latin());
    let e: LGSquare<El> = LGSquare { contents: vec![] };
    assert!(e.is_latin());
    let odd = LGSquare { contents: vec![El(0, 0), El(1, 1)] };
    assert!(!odd.is_latin());
}

#[test]
fn membership() {
    assert!(holds(&vec![3, 1, 4], 4));
    assert!(!holds(&vec![3, 1, 4], 5));
    assert!(!holds(&vec![], 0));
}

#[test]
fn transversals_of_the_cyclic_square() {
    // 0 1 2 / 1 2 0 / 2 0 1
    let s = LGSquare { contents: vec![0usize, 1, 2, 1, 2, 0, 2, 0, 1] };
    let all = find_tranversals_extending(&s, &vec![], vec![]);
    assert_eq!(all, vec![vec![0, 2, 1], vec![1, 0, 2], vec![2, 1, 0]]);
    let from0 = find_tranversals_extending(&s, &vec![0], vec![0]);
    assert_eq!(from0, vec![vec![0, 2, 1]]);
    // with row 1 counted as taken, row 0 can be taken again, but then no row is left
    let none = find_tranversals_extending(&s, &vec![0], vec![1]);
    assert_eq!(none, Vec::<Vec<usize>>::new());
    let other = find_tranversals_extending(&s, &vec![2], vec![2]);
    assert_eq!(other, vec![vec![2, 1, 0]]);
}

#[test]
fn square_of_side_two_has_no_transversal() {
    let s = LGSquare { contents: vec![0usize, 1, 1, 0] };
    assert_eq!(find_tranversals_extending(&s, &vec![], vec![]), Vec::<Vec<usize>>::new());
}

#[test]
fn transversals_of_the_square_of_ten() {
    let l = LGSquare {
        contents: vec![
            0usize, 1, 2, 3, 4, 5, 6, 7, 8, 9, 1, 8, 3, 2, 5, 4, 7, 6, 9, 0, 2, 9, 5, 6, 3, 0, 8, 4,
            7, 1, 3, 7, 0, 9, 8, 6, 1, 5, 2, 4, 4, 6, 7, 5, 2, 9, 0, 8, 1, 3, 5, 0, 9, 4, 7, 8, 3, 1,
            6, 2, 6, 5, 4, 7, 1, 3, 2, 9, 0, 8, 7, 4, 1, 8, 0, 2, 9, 3, 5, 6, 8, 3, 6, 0, 9, 1, 5, 2,
            4, 7, 9, 2, 8, 1, 6, 7, 4, 0, 3, 5,
        ],
    };
    let sample = vec![0usize, 8, 5, 9, 7, 3, 4, 2, 1, 6];
    let rows = vec![0usize, 1, 2, 3, 5, 6, 9, 8, 4, 7];
    let t9 = find_tranversals_extending(&l, &sample[..9].to_vec(), rows[..9].to_vec());
    assert_eq!(t9, vec![sample.clone()]);
    let t6 = find_tranversals_extending(&l, &sample[..6].to_vec(), rows[..6].to_vec());
    assert!(t6.contains(&sample));
    for t in &t6 {
        let mut seen = t.clone();
        seen.sort();
        assert_eq!(seen, (0..10).collect::<Vec<usize>>());
    }
}

#[test]
fn square_as_text() {
    let s = LGSquare::new(2, vec![0, 1], vec![0, 10], |i, j| El(i, 10 * j));
    assert_eq!(s.to_str(), " 00 010\n 10 110\n");
    let e: LGSquare<El> = LGSquare { contents: vec![] };
    assert_eq!(e.to_str(), "");
    let n = LGSquare { contents: vec![5usize] };
    assert_eq!(n.to_str(), " 5\n");
}
