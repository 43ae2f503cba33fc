use dlx::llist::{
    count_cards, count_cards_alt1, count_cards_alt2, count_cards_alt3, make_hand, place_bot,
    place_bot_rec, place_bot_rec_1, place_bot_rec_2, place_faceup, place_top, pop_bot, pop_bot_2,
    pop_top, rank_to_str, Card, CardSuit, CardTag, Pile,
};

fn card(tag: CardTag, suit: CardSuit, rank: u8) -> Box<Card> {
    Box::new(Card { tag: tag, suit: suit, rank: rank, next: None, title: [' '; 5] })
}

fn ranks(pile: &Option<Box<Card>>) -> Vec<u8> {
    let mut out = vec![];
    let mut c = pile;
    while let Some(b) = c {
        out.push(b.rank);
        c = &b.next;
    }
    out
}

#[test]
fn hand_of_the_example() {
    let hand = Some(make_hand());
    assert_eq!(ranks(&hand), vec![2, 3, 10]);
    assert_eq!(hand.as_ref().unwrap().suit, CardSuit::Diamonds);
    assert_eq!(hand.as_ref().unwrap().title, [' ', ' ', '2', ' ', 'D']);
    assert_eq!(count_cards_alt2(&hand), 3);
    assert_eq!(count_cards(Some(make_hand())), 3);
    assert_eq!(count_cards_alt1(Some(make_hand())), 3);
    assert_eq!(count_cards_alt3(Some(make_hand())), 3);
    assert_eq!(count_cards(None), 0);
    assert_eq!(count_cards_alt3(None), 0);
}

#[test]
fn top_and_bottom() {
    let ace = card(CardTag::FaceDown, CardSuit::Diamonds, 1);
    let hand = place_top(Some(make_hand()), ace);
    assert_eq!(ranks(&Some(hand)), vec![1, 2, 3, 10]);
    let six = card(CardTag::FaceUp, CardSuit::Diamonds, 6);
    let hand = place_bot(Some(make_hand()), six);
    assert_eq!(ranks(&Some(hand)), vec![2, 3, 10, 6]);
    let seven = card(CardTag::FaceUp, CardSuit::Diamonds, 7);
    let hand = place_bot_rec(None, seven);
    assert_eq!(ranks(&Some(hand)), vec![7]);
    let eight = card(CardTag::FaceUp, CardSuit::Hearts, 8);
    let hand = place_bot_rec_1(Some(make_hand()), eight);
    assert_eq!(ranks(&Some(hand)), vec![2, 3, 10, 8]);
    // a card that is put on top lets go what lay below it
    let hand = place_top(None, make_hand());
    assert_eq!(ranks(&Some(hand)), vec![2]);
    // a card that is put below keeps what lies below it
    let hand = place_bot(Some(card(CardTag::FaceUp, CardSuit::Clubs, 9)), make_hand());
    assert_eq!(ranks(&Some(hand)), vec![9, 2, 3, 10]);
}

#[test]
fn popping() {
    let (top, rest) = pop_top(make_hand());
    assert_eq!(top.rank, 2);
    assert!(top.next.is_none());
    assert_eq!(ranks(&rest), vec![3, 10]);
    let (bot, rest) = pop_bot(make_hand());
    assert_eq!(bot.rank, 10);
    assert!(bot.next.is_none());
    assert_eq!(ranks(&rest), vec![2, 3]);
    let (only, rest) = pop_bot(card(CardTag::FaceUp, CardSuit::Spades, 4));
    assert_eq!(only.rank, 4);
    assert!(rest.is_none());
    let (only, rest) = pop_top(card(CardTag::FaceUp, CardSuit::Spades, 4));
    assert_eq!(only.rank, 4);
    assert!(rest.is_none());
}

#[test]
fn names_of_ranks() {
    let names = ["A", "2", "3", "4", "5", "6", "7", "8", "9", "10", "J", "Q", "K"];
    for r in 1..=13u8 {
        assert_eq!(rank_to_str(r), names[r as usize - 1]);
    }
    assert_eq!(card(CardTag::FaceUp, CardSuit::Clubs, 12).rank_to_str(), "Q");
}

#[test]
fn cards_and_piles_as_text() {
    assert_eq!(CardSuit::Clubs.to_str(), "\u{2663}");
    assert_eq!(CardSuit::Diamonds.to_str(), "\u{2662}");
    assert_eq!(CardSuit::Hearts.to_str(), "\u{2661}");
    assert_eq!(CardSuit::Spades.to_str(), "\u{2660}");
    assert_eq!(card(CardTag::FaceUp, CardSuit::Spades, 3).to_str(), "3\u{2660}");
    assert_eq!(card(CardTag::FaceDown, CardSuit::Clubs, 10).to_str(), "(10\u{2663})");
    let pile = Pile { cards: Some(make_hand()) };
    assert_eq!(pile.to_str(), "2\u{2662},3\u{2660},(10\u{2663})");
    assert_eq!(Pile { cards: None }.to_str(), "");
}

#[test]
fn pile_of_the_exercises() {
    let mut pile = Pile { cards: Some(make_hand()) };
    pile.place_top_faceup(card(CardTag::FaceDown, CardSuit::Diamonds, 1));
    assert_eq!(pile.to_str(), "A\u{2662},2\u{2662},3\u{2660},(10\u{2663})");
    let top = pile.pop_top();
    assert_eq!(top.rank, 1);
    assert_eq!(top.tag, CardTag::FaceUp);
    assert!(top.next.is_none());
    assert_eq!(ranks(&pile.cards), vec![2, 3, 10]);
    pile.place_bot_facedown(card(CardTag::FaceUp, CardSuit::Diamonds, 1));
    assert_eq!(pile.to_str(), "2\u{2662},3\u{2660},(10\u{2663}),(A\u{2662})");
    let mut empty = Pile { cards: None };
    empty.place_bot_facedown(card(CardTag::FaceUp, CardSuit::Hearts, 13));
    assert_eq!(empty.to_str(), "(K\u{2661})");
    let up = place_faceup(card(CardTag::FaceDown, CardSuit::Hearts, 5), Some(make_hand()));
    assert_eq!(up.tag, CardTag::FaceUp);
    assert_eq!(ranks(&Some(up)), vec![5, 2, 3, 10]);
}

#[test]
fn in_place_variants() {
    let hand = place_bot_rec_2(Some(make_hand()), card(CardTag::FaceUp, CardSuit::Diamonds, 7));
    assert_eq!(ranks(&Some(hand)), vec![2, 3, 10, 7]);
    let hand = place_bot_rec_2(None, card(CardTag::FaceUp, CardSuit::Diamonds, 7));
    assert_eq!(ranks(&Some(hand)), vec![7]);
    let (bot, rest) = pop_bot_2(make_hand());
    assert_eq!(bot.rank, 10);
    assert!(bot.next.is_none());
    assert_eq!(ranks(&rest), vec![2, 3]);
    let (only, rest) = pop_bot_2(card(CardTag::FaceUp, CardSuit::Spades, 4));
    assert_eq!(only.rank, 4);
    assert!(rest.is_none());
}
