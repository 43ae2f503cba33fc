use dlx::langford::{
    is_langford, is_langford_ordered, next_perm, perms_vec, seq_2n, two_n,
};

#[test]
fn pairs_of_numbers() {
    assert_eq!(two_n(3), vec![1, 1, 2, 2, 3, 3]);
    assert_eq!(two_n(0), Vec::<u8>::new());
    assert_eq!(seq_2n(4), vec![1, 1, 2, 2, 3, 3, 4, 4]);
    assert_eq!(seq_2n(0), Vec::<usize>::new());
}

#[test]
fn langford_arrangements() {
    assert!(is_langford(&[2, 3, 1, 2, 1, 3]));
    assert!(is_langford(&[3, 1, 2, 1, 3, 2]));
    assert!(!is_langford(&[1, 3, 1, 2, 1, 3]));
    assert!(!is_langford(&[1, 2, 3]));
    assert!(is_langford(&[]));
    assert!(is_langford(&[4, 1, 3, 1, 2, 4, 3, 2]));
    assert!(is_langford_ordered(&[2, 3, 1, 2, 1, 3]));
    assert!(!is_langford_ordered(&[1, 1, 2, 2, 3, 3]));
    assert!(is_langford_ordered(&[]));
    assert!(is_langford_ordered(&[4, 1, 3, 1, 2, 4, 3, 2]));
}

#[test]
fn the_two_tests_agree() {
    let mut a = seq_2n(3);
    let mut count = 0;
    loop {
        let small: Vec<u8> = a.iter().map(|x| *x as u8).collect();
        assert_eq!(is_langford(&a), is_langford_ordered(&small));
        if is_langford(&a) {
            count += 1;
        }
        if !next_perm(&mut a) {
            break;
        }
    }
    assert_eq!(count, 2);
}

#[test]
fn steps_through_the_arrangements() {
    let mut a = vec![1, 2, 3];
    let mut seen = vec![a.clone()];
    while next_perm(&mut a) {
        seen.push(a.clone());
    }
    assert_eq!(
        seen,
        vec![
            vec![1, 2, 3],
            vec![1, 3, 2],
            vec![2, 1, 3],
            vec![2, 3, 1],
            vec![3, 1, 2],
            vec![3, 2, 1]
        ]
    );
    assert_eq!(a, vec![3, 2, 1]);
    let mut b = vec![1, 1, 2, 2];
    let mut n = 1;
    while next_perm(&mut b) {
        n += 1;
    }
    assert_eq!(n, 6);
    let mut c = vec![2, 2];
    assert!(!next_perm(&mut c));
    assert_eq!(c, vec![2, 2]);
    let mut d = vec![1, 4, 3, 2];
    assert!(next_perm(&mut d));
    assert_eq!(d, vec![2, 1, 3, 4]);
}

#[test]
fn count_of_langford_arrangements_of_four() {
    let mut a = seq_2n(4);
    let mut count = 0;
    loop {
        if is_langford(&a) {
            count += 1;
        }
        if !next_perm(&mut a) {
            break;
        }
    }
    assert_eq!(count, 2);
}

#[test]
fn arrangements_by_exchanges() {
    assert_eq!(perms_vec(vec![]), vec![Vec::<u8>::new()]);
    assert_eq!(perms_vec(vec![5]), vec![vec![5]]);
    assert_eq!(perms_vec(vec![1, 2]), vec![vec![1, 2], vec![2, 1]]);
    let p = perms_vec(vec![1, 2, 3]);
    assert_eq!(p[0], vec![1, 2, 3]);
    assert_eq!(p[1], vec![1, 3, 2]);
    let mut sorted = p.clone();
    sorted.sort();
    assert_eq!(
        sorted,
        vec![
            vec![1, 2, 3],
            vec![1, 3, 2],
            vec![2, 1, 3],
            vec![2, 3, 1],
            vec![3, 1, 2],
            vec![3, 2, 1]
        ]
    );
    assert_eq!(perms_vec(two_n(2)).len(), 6);
    let all = perms_vec(two_n(3));
    assert_eq!(all.len(), 90);
    assert_eq!(all.iter().filter(|v| is_langford_ordered(v)).count(), 2);
}
