use dlx::n_tuples::mixed_radix_lexicographic;
use dlx::sets::{
    BitsUint, is_subgraph, NatCount, NatRange, print, Singleton, TwoSet, AbstractSet, Graph,
    ListedSet, SmallGraph, SubsetSpecialized,
};
use dlx::text::Shown;
use dlx::util::powervec;

#[test]
fn small_sets() {
    let s = Singleton(4);
    assert!(s.has(&4) && !s.has(&5));
    assert!(s.subset(&Singleton(4)) && !s.subset(&Singleton(3)));
    assert_eq!(s.each_elem(), vec![4]);
    let t = TwoSet(1, 9);
    assert!(t.has(&1) && t.has(&9) && !t.has(&5));
    let c = NatCount(3);
    assert!(c.has(&0) && c.has(&2) && !c.has(&3));
    assert!(c.subset(&NatCount(3)) && c.subset(&NatCount(7)) && !c.subset(&NatCount(2)));
    let r = NatRange(2, 5);
    assert_eq!((r.start, r.limit), (2, 5));
}

#[test]
fn sets_of_bits() {
    let x001 = BitsUint(1);
    let x101 = BitsUint(5);
    let x111 = BitsUint(7);
    assert!(x101.has(&0) && !x101.has(&1) && x101.has(&2) && !x101.has(&63));
    assert!(x101.subset(&x111));
    assert!(!x101.subset(&x001));
    assert!(x001.subset(&x101));
    assert!(BitsUint(0).subset(&x001));
    assert_eq!(x101.each_elem(), vec![0, 2]);
    assert_eq!(BitsUint(0).each_elem(), Vec::<usize>::new());
    // the walk visits the first eight numbers only
    assert_eq!(BitsUint(0x381).each_elem(), vec![0, 7]);
    assert!(BitsUint(1 << 63).has(&63));
}

#[test]
fn part_of_a_graph() {
    let small = SmallGraph { v: NatCount(3), e: BitsUint(0b011) };
    let big = SmallGraph { v: NatCount(5), e: BitsUint(0b111) };
    assert!(is_subgraph(&small, &big));
    assert!(!is_subgraph(&big, &small));
    let other = SmallGraph { v: NatCount(5), e: BitsUint(0b100) };
    assert!(!is_subgraph(&small, &other));
    assert!(is_subgraph(&small, &small));
    assert_eq!(small.vertices().limit, 3);
    assert_eq!(small.edges().bits, 3);
}

#[test]
fn sublists_by_length() {
    assert_eq!(powervec(vec![]), vec![Vec::<usize>::new()]);
    assert_eq!(powervec(vec![7]), vec![vec![], vec![7]]);
    assert_eq!(
        powervec(vec![1, 2, 3]),
        vec![
            vec![],
            vec![1],
            vec![2],
            vec![3],
            vec![1, 2],
            vec![1, 3],
            vec![2, 3],
            vec![1, 2, 3]
        ]
    );
    assert_eq!(powervec(vec![5, 5]), vec![vec![], vec![5], vec![5], vec![5, 5]]);
}

#[test]
fn start_of_the_mixed_radix_walk() {
    let it = mixed_radix_lexicographic(vec![3, 4, 5]);
    assert_eq!(it.m, vec![2, 3, 4, 5]);
    assert_eq!(it.a, vec![0, 3, 4, 5]);
    let e = mixed_radix_lexicographic(vec![]);
    assert_eq!(e.m, vec![2]);
    assert_eq!(e.a, vec![0]);
}

#[test]
fn values_as_text() {
    assert_eq!(0usize.show(), "0");
    assert_eq!(907usize.show(), "907");
    assert_eq!(usize::MAX.show(), usize::MAX.to_string());
    assert_eq!((-45isize).show(), "-45");
    assert_eq!(0isize.show(), "0");
    assert_eq!(isize::MIN.show(), isize::MIN.to_string());
    assert_eq!(true.show(), "true");
    assert_eq!(false.show(), "false");
    assert_eq!("ab".show(), "ab");
    assert_eq!(String::from("cd").show(), "cd");
}

#[test]
fn sets_as_text() {
    assert_eq!(print(&BitsUint(5)), "{0,2}");
    assert_eq!(print(&BitsUint(7)), "{0,1,2}");
    assert_eq!(print(&BitsUint(0)), "{}");
    assert_eq!(print(&Singleton(12)), "{12}");
}
