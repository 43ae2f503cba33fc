use dlx::words::{print_words, words_from, Class, Entry, Key, WtVector};

#[test]
fn lines_of_the_word_list() {
    let lines: Vec<Vec<u8>> = vec![
        b"* a comment".to_vec(),
        b"aargh".to_vec(),
        b"which*306,80,2,12,5,0,1,".to_vec(),
        b"zones+1,20,".to_vec(),
        b"abaca 3,4".to_vec(),
        b"*".to_vec(),
    ];
    let d = words_from(&lines);
    assert_eq!(d.m.len(), 4);
    assert_eq!(d.m[0].word.0, ['a', 'a', 'r', 'g', 'h']);
    assert_eq!(d.m[0].class, Class::Unusual);
    assert_eq!(d.m[0].counts, vec![0, 0, 0, 0, 0, 0, 0]);
    assert_eq!(d.m[1].word.0, ['w', 'h', 'i', 'c', 'h']);
    assert_eq!(d.m[1].class, Class::Common);
    assert_eq!(d.m[1].counts, vec![306, 80, 2, 12, 5, 0, 1]);
    assert_eq!(d.m[2].class, Class::Advanced);
    assert_eq!(d.m[2].counts, vec![1, 20, 0, 0, 0, 0, 0]);
    // a number that no comma follows is not stored
    assert_eq!(d.m[3].class, Class::Unusual);
    assert_eq!(d.m[3].counts, vec![3, 0, 0, 0, 0, 0, 0]);
}

#[test]
fn bytes_that_are_no_digits_are_passed_over() {
    let lines: Vec<Vec<u8>> = vec![b"abcde*1x2,y,3 4,".to_vec()];
    let d = words_from(&lines);
    assert_eq!(d.m[0].counts, vec![12, 0, 34, 0, 0, 0, 0]);
}

#[test]
fn no_lines_no_words() {
    let d = words_from(&vec![]);
    assert!(d.m.is_empty());
}

#[test]
fn weight_of_a_word() {
    let wt = WtVector { a: 100, b: 10, w: [4, 2, 2, 1, 1, 1, 1] };
    let mut e = Entry { word: Key(['w', 'h', 'i', 'c', 'h']), class: Class::Common, counts: vec![306, 80, 2, 12, 5, 0, 1] };
    assert_eq!(wt.weight(&e), 4 * 306 + 2 * 80 + 2 * 2 + 12 + 5 + 0 + 1 + 100);
    e.class = Class::Advanced;
    assert_eq!(wt.weight(&e), 1406 + 10);
    e.class = Class::Unusual;
    assert_eq!(wt.weight(&e), 1406);
    let z = Entry { word: Key(['a'; 5]), class: Class::Unusual, counts: vec![0; 7] };
    assert_eq!(wt.weight(&z), 0);
}

#[test]
fn words_as_lines() {
    let lines: Vec<Vec<u8>> = vec![b"which*306,80,2,12,5,0,1,".to_vec(), b"zones+1,20,".to_vec(), b"aargh".to_vec()];
    let d = words_from(&lines);
    let out = print_words(&d);
    assert_eq!(
        out,
        vec![
            "key: which   common [306, 80, 2, 12, 5, 0, 1]",
            "key: zones advanced [1, 20, 0, 0, 0, 0, 0]",
            "key: aargh  unusual [0, 0, 0, 0, 0, 0, 0]"
        ]
    );
}
