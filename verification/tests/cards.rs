use dlx::cards::{
    void_card, Card, CardRef, CardStore, CardTitle, FaceFormat, Facing, Pile, Rank, Suit,
    ToCardTitle,
};

fn store() -> Box<CardStore> {
    let mut s = CardStore::prefilled(400);
    s.replace_at(100, Card::new(Facing::FaceDown, Suit::Clubs, Rank::R10, b" 10 C"));
    s.replace_at(386, Card::new(Facing::FaceUp, Suit::Spades, Rank::R3, b"  3 S").atop(100));
    s.replace_at(242, Card::new(Facing::FaceUp, Suit::Diamonds, Rank::R2, b"  2 D").atop(386));
    s
}

#[test]
fn suit_characters() {
    assert_eq!(Suit::Spades.unicode_char(), '\u{2660}');
    assert_eq!(Suit::Hearts.unicode_char(), '\u{2661}');
    assert_eq!(Suit::Diamonds.unicode_char(), '\u{2662}');
    assert_eq!(Suit::Clubs.unicode_char(), '\u{2663}');
    assert_eq!(Suit::Spades.ace_char(), '\u{1F0A1}');
    assert_eq!(Suit::Hearts.ace_char(), '\u{1F0B1}');
    assert_eq!(Suit::Diamonds.ace_char(), '\u{1F0C1}');
    assert_eq!(Suit::Clubs.ace_char(), '\u{1F0D1}');
    assert_eq!(Suit::Spades.ascii_char(), 'S');
    assert_eq!(Suit::Hearts.ascii_char(), 'H');
    assert_eq!(Suit::Diamonds.ascii_char(), 'D');
    assert_eq!(Suit::Clubs.ascii_char(), 'C');
}

#[test]
fn rank_names_and_offsets() {
    let ranks = [
        Rank::Ace, Rank::R2, Rank::R3, Rank::R4, Rank::R5, Rank::R6, Rank::R7, Rank::R8,
        Rank::R9, Rank::R10, Rank::Jack, Rank::Queen, Rank::King,
    ];
    let names = ["A", "2", "3", "4", "5", "6", "7", "8", "9", "10", "J", "Q", "K"];
    for (i, r) in ranks.iter().enumerate() {
        assert_eq!(r.ascii_string(), names[i]);
        assert_eq!(r.offset_from_ace() as usize, i);
    }
}

#[test]
fn face_of_a_card() {
    let c = Card::new(Facing::FaceUp, Suit::Spades, Rank::R3, b"  3 S");
    assert_eq!(c.face_unicode_char(), '\u{1F0A3}');
    assert_eq!(c.face_string(FaceFormat::Compact), "\u{1F0A3}");
    assert_eq!(c.face_string(FaceFormat::Legible), "3\u{2660}");
    assert_eq!(c.face_string(FaceFormat::Ascii), "3S");
    assert_eq!(c.unicode_string(), "3\u{2660}");
    assert_eq!(c.ascii_string(), "3S");
    let k = Card::new(Facing::FaceUp, Suit::Clubs, Rank::King, b"  K C");
    assert_eq!(k.face_unicode_char(), '\u{1F0DD}');
    assert_eq!(k.face_string(FaceFormat::Ascii), "KC");
    let t = Card::new(Facing::FaceDown, Suit::Hearts, Rank::R10, b" 10 H");
    assert_eq!(t.face_string(FaceFormat::Ascii), "10H");
    assert_eq!(t.back_ascii_string(), "[]");
    assert_eq!(t.unicode_string(), "[]");
    assert_eq!(t.ascii_string(), "[]");
}

#[test]
fn titles() {
    let t = CardTitle { bytes: *b" 10 C" };
    assert_eq!(t.to_string(), " 10 C");
    assert_eq!([65u8, 66, 67, 68, 69].to_card_title().bytes, *b"ABCDE");
    assert_eq!((b"  3 S").to_card_title().bytes, *b"  3 S");
    let sl: &[u8] = b"  2 D";
    assert_eq!(sl.to_card_title().bytes, *b"  2 D");
    let u = CardTitle { bytes: [0xC3, 0xA9, b'a', b'b', b'c'] };
    assert_eq!(u.to_string(), "\u{e9}abc");
}

#[test]
fn new_card_and_atop() {
    let c = Card::new(Facing::FaceDown, Suit::Hearts, Rank::Queen, b"  Q H");
    assert_eq!(c.next, 0);
    assert_eq!(c.tag, Facing::FaceDown);
    assert_eq!(c.suit, Suit::Hearts);
    assert_eq!(c.rank, Rank::Queen);
    assert_eq!(c.title.bytes, *b"  Q H");
    let d = c.atop(17);
    assert_eq!(d.next, 17);
    assert_eq!(d.rank, Rank::Queen);
    let v = void_card();
    assert_eq!(v.next, 0);
    assert_eq!(v.title.bytes, [0, 0, 0, 0, 0]);
}

#[test]
fn piles_of_the_store() {
    let mut s = store();
    assert_eq!(s.cards.len(), 400);
    let p = Pile { top: 242 };
    assert_eq!(p.count(&s), 3);
    assert_eq!(Pile { top: 386 }.count(&s), 2);
    assert_eq!(Pile { top: 100 }.count(&s), 1);
    assert_eq!(Pile { top: 0 }.count(&s), 0);
    assert_eq!(p.top_card(&s).rank, Rank::R2);
    let mut p = p;
    let top = p.pop(&mut s).unwrap();
    assert_eq!(top.index, 242);
    assert_eq!(p.top, 386);
    assert_eq!(s.cards[242].next, 0);
    assert_eq!(p.count(&s), 2);
    assert_eq!(top.title_string(&s), "  2 D");
    p.place_face_up(&mut s, top);
    assert_eq!(p.top, 242);
    assert_eq!(s.cards[242].next, 386);
    assert_eq!(p.count(&s), 3);
    let mut e = Pile { top: 0 };
    assert!(e.pop(&mut s).is_none());
    assert!(e.pop_v1(&mut s).is_none());
    let t = p.pop_v1(&mut s).unwrap();
    assert_eq!(t.index, 242);
    assert_eq!(p.top, 386);
}

#[test]
fn pile_with_its_store() {
    let mut s = store();
    let mut cp = s.current_pile_at(242);
    assert_eq!(cp.count(), 3);
    assert_eq!(cp.top_card().suit, Suit::Diamonds);
    assert_eq!(cp.write_all_ascii(), "2D,3S,[]");
    assert_eq!(cp.write_all_unicode(), "2\u{2662},3\u{2660},[]");
    assert_eq!(cp.write_all_compact(), "\u{1F0C2},\u{1F0A3},\u{1F0DA}");
    assert_eq!(cp.write_all_titles(), "  2 D\n,  3 S\n, 10 C\n");
    let r = cp.pop().unwrap();
    assert_eq!(r.index, 242);
    assert_eq!(cp.count(), 2);
    assert_eq!(cp.write_all_ascii(), "3S,[]");
    cp.place_face_up(CardRef { index: 242 });
    assert_eq!(cp.count(), 3);
    let e = s.current_pile_at(0);
    assert_eq!(e.write_all_ascii(), "");
}

#[test]
fn write_all_with_a_writer_of_ones_own() {
    let s = store();
    let p = Pile { top: 386 };
    let out = p.write_all(&s, &|c: &Card| format!("<{}>", c.rank.ascii_string()));
    assert_eq!(out, "<3>,<10>");
}

#[test]
fn empty_store() {
    let s = CardStore::new();
    assert!(s.cards.is_empty());
    let p = CardStore::prefilled(0);
    assert!(p.cards.is_empty());
}
