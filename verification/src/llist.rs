//! A pile of cards as a linked list: each card owns the card below it.

use crate::text::push_char;
use vstd::prelude::*;
use vstd::string::StringExecFns;

verus! {

#[derive(Clone, Copy, PartialEq, Eq, Structural, Debug)]
pub enum CardTag {
    FaceDown,
    FaceUp,
}

#[derive(Clone, Copy, PartialEq, Eq, Structural, Debug)]
pub enum CardSuit {
    Clubs,
    Diamonds,
    Hearts,
    Spades,
}

/// A card, and below it the rest of its pile.
#[derive(Debug)]
pub struct Card {
    pub tag: CardTag,
    pub suit: CardSuit,
    pub rank: u8,
    pub next: Option<Box<Card>>,
    pub title: [char; 5],
}

/// What a card shows, apart from its place in a pile.
pub struct Face {
    pub tag: CardTag,
    pub suit: CardSuit,
    pub rank: u8,
    pub title: Seq<char>,
}

impl Card {
    /// What the card shows.
    pub open spec fn face(&self) -> Face {
        Face { tag: self.tag, suit: self.suit, rank: self.rank, title: self.title@ }
    }

    /// The card and the cards below it, from the top down.
    pub open spec fn chain(&self) -> Seq<Face>
        decreases self,
    {
        seq![self.face()] + cards(self.next)
    }
}

/// The cards of the pile, from the top down.
pub open spec fn cards(pile: Option<Box<Card>>) -> Seq<Face>
    decreases pile,
{
    match pile {
        None => Seq::empty(),
        Some(c) => seq![c.face()] + cards(c.next),
    }
}

/// Puts `newcard` on top of the pile: `[c1, ..., cN], cX -> [cX, c1, ...,
/// cN]`. What lay below `newcard` is let go.
pub fn place_top(pile: Option<Box<Card>>, newcard: Box<Card>) -> (top: Box<Card>)
    ensures
        top.chain() == seq![newcard.face()] + cards(pile),
{
    let mut newcard = newcard;
    newcard.next = pile;
    newcard
}

/// Puts `newcard` below the pile: `[c1, ..., cN], cX -> [c1, ..., cN, cX]`.
pub fn place_bot(pile: Option<Box<Card>>, newcard: Box<Card>) -> (top: Box<Card>)
    ensures
        top.chain() == cards(pile) + newcard.chain(),
{
    place_bot_rec(pile, newcard)
}

/// Puts `newcard` below the pile, going down the pile card by card.
pub fn place_bot_rec(pile: Option<Box<Card>>, newcard: Box<Card>) -> (top: Box<Card>)
    ensures
        top.chain() == cards(pile) + newcard.chain(),
    decreases pile,
{
    match pile {
        None => {
            assert(cards(pile) + newcard.chain() =~= newcard.chain());
            newcard
        },
        Some(cards0) => {
            let mut cards0 = cards0;
            let ghost below = cards(cards0.next);
            let ghost face = cards0.face();
            let rest = cards0.next.take();
            cards0.next = Some(place_bot_rec(rest, newcard));
            assert(cards0.chain() =~= (seq![face] + below) + newcard.chain());
            cards0
        },
    }
}

/// Puts `newcard` below the pile, building each card of the pile anew.
pub fn place_bot_rec_1(pile: Option<Box<Card>>, newcard: Box<Card>) -> (top: Box<Card>)
    ensures
        top.chain() == cards(pile) + newcard.chain(),
    decreases pile,
{
    match pile {
        None => {
            assert(cards(pile) + newcard.chain() =~= newcard.chain());
            newcard
        },
        Some(c) => {
            let Card { tag, suit, rank, next, title } = *c;
            let ghost below = cards(next);
            let next = Some(place_bot_rec_1(next, newcard));
            let top = Box::new(Card { tag: tag, suit: suit, rank: rank, next: next, title: title });
            assert(top.chain() =~= (seq![top.face()] + below) + newcard.chain());
            top
        },
    }
}

/// Puts `newcard` below the card `pile` and the cards below it.
fn place_below(pile: &mut Box<Card>, newcard: Box<Card>)
    ensures
        final(pile).chain() == old(pile).chain() + newcard.chain(),
    decreases *old(pile),
{
    let ghost face = pile.face();
    let ghost below = cards(pile.next);
    match pile.next {
        None => {
            pile.next = Some(newcard);
            assert(pile.chain() =~= (seq![face] + below) + newcard.chain());
        },
        Some(ref mut next) => {
            place_below(next, newcard);
            assert(pile.chain() =~= (seq![face] + below) + newcard.chain());
        },
    }
}

/// Puts `newcard` below the pile, changing only the last card of the pile.
pub fn place_bot_rec_2(pile: Option<Box<Card>>, newcard: Box<Card>) -> (top: Box<Card>)
    ensures
        top.chain() == cards(pile) + newcard.chain(),
{
    match pile {
        None => {
            assert(cards(pile) + newcard.chain() =~= newcard.chain());
            newcard
        },
        Some(c) => {
            let mut card = c;
            place_below(&mut card, newcard);
            card
        },
    }
}

/// Takes the top card off: `[c1, c2, ..., cN] -> (c1, [c2, ..., cN])`.
pub fn pop_top(pile: Box<Card>) -> (r: (Box<Card>, Option<Box<Card>>))
    ensures
        r.0.chain() == seq![pile.face()],
        cards(r.1) == cards(pile.next),
{
    let mut c = pile;
    let mut rest: Option<Box<Card>> = None;
    core::mem::swap(&mut c.next, &mut rest);
    assert(c.chain() =~= seq![pile.face()]);
    (c, rest)
}

/// Takes the bottom card away: `[c1, ..., cN-1, cN] -> (cN, [c1, ...,
/// cN-1])`.
pub fn pop_bot(pile: Box<Card>) -> (r: (Box<Card>, Option<Box<Card>>))
    ensures
        r.0.chain() == seq![pile.chain().last()],
        cards(r.1) == pile.chain().drop_last(),
    decreases pile,
{
    let ghost all = pile.chain();
    let mut pile = pile;
    let mut remaining: Option<Box<Card>> = None;
    core::mem::swap(&mut pile.next, &mut remaining);
    match remaining {
        None => {
            assert(pile.chain() =~= seq![all.last()]);
            assert(cards(None) =~= all.drop_last());
            (pile, None)
        },
        Some(cards0) => {
            let ghost below = cards0.chain();
            let (last, newcards) = pop_bot(cards0);
            pile.next = newcards;
            assert(all =~= seq![pile.face()] + below);
            assert(cards(Some(pile)) =~= all.drop_last());
            assert(below.last() == all.last());
            (last, Some(pile))
        },
    }
}

/// Takes the bottom card away, walking down the pile without changing a
/// card on the way: `[c1, ..., cN-1, cN] -> (cN, [c1, ..., cN-1])`.
pub fn pop_bot_2(pile: Box<Card>) -> (r: (Box<Card>, Option<Box<Card>>))
    ensures
        r.0.chain() == seq![pile.chain().last()],
        cards(r.1) == pile.chain().drop_last(),
{
    let ghost all = pile.chain();
    let ghost mut done: Seq<Face> = Seq::empty();
    let mut top: Option<Box<Card>> = Some(pile);
    let mut cursor = &mut top;
    assert(done + cards(*cursor) =~= all);
    loop
        invariant
            *cursor is Some,
            done + cards(*cursor) == all,
            cards(after_borrow(top)) == done + cards(*final(cursor)),
        ensures
            *cursor is Some,
            cards(*cursor).len() == 1,
            done + cards(*cursor) == all,
            cards(after_borrow(top)) == done + cards(*final(cursor)),
        decreases cards(*cursor).len(),
    {
        let at_last = match &*cursor {
            Some(c) => c.next.is_none(),
            None => true,
        };
        if at_last {
            proof {
                reveal_with_fuel(cards, 2);
                assert(cards(*cursor).len() == 1);
            }
            break ;
        }
        match cursor {
            Some(c) => {
                proof {
                    done = done.push(c.face());
                    assert(done + cards(c.next) =~= all);
                }
                cursor = &mut c.next;
            },
            None => {},
        }
    }
    let last = cursor.take();
    match last {
        Some(l) => {
            proof {
                assert(l.chain() =~= seq![all.last()]);
                assert(cards(top) =~= all.drop_last());
            }
            (l, top)
        },
        None => vstd::pervasive::unreached(),
    }
}

/// The number of cards of the pile.
pub fn count_cards(pile: Option<Box<Card>>) -> (c: usize)
    requires
        cards(pile).len() <= usize::MAX,
    ensures
        c == cards(pile).len(),
{
    let mut c: usize = 0;
    let mut cursor = &pile;
    loop
        invariant
            c + cards(*cursor).len() == cards(pile).len(),
            cards(pile).len() <= usize::MAX,
        ensures
            c == cards(pile).len(),
        decreases cards(*cursor).len(),
    {
        match cursor {
            Some(card) => {
                c = c + 1;
                cursor = &card.next;
            },
            None => {
                break ;
            },
        }
    }
    return c;
}

/// The number of cards of the pile, counted as `count_cards` counts.
pub fn count_cards_alt1(pile: Option<Box<Card>>) -> (c: usize)
    requires
        cards(pile).len() <= usize::MAX,
    ensures
        c == cards(pile).len(),
{
    let mut c: usize = 0;
    let mut cursor = &pile;
    loop
        invariant
            c + cards(*cursor).len() == cards(pile).len(),
            cards(pile).len() <= usize::MAX,
        ensures
            c == cards(pile).len(),
        decreases cards(*cursor).len(),
    {
        match *cursor {
            Some(ref card) => {
                c = c + 1;
                cursor = &card.next;
            },
            None => {
                break ;
            },
        }
    }
    return c;
}

/// The number of cards of the pile, counted card by card from the bottom
/// up.
pub fn count_cards_alt2(pile: &Option<Box<Card>>) -> (c: usize)
    requires
        cards(*pile).len() <= usize::MAX,
    ensures
        c == cards(*pile).len(),
    decreases *pile,
{
    match *pile {
        Some(ref card) => 1 + count_cards_alt2(&card.next),
        None => 0,
    }
}

/// The number of cards of the pile, counted card by card from the bottom
/// up.
pub fn count_cards_alt3(pile: Option<Box<Card>>) -> (c: usize)
    requires
        cards(pile).len() <= usize::MAX,
    ensures
        c == cards(pile).len(),
{
    count_cards_alt2(&pile)
}

/// The name of the rank `r`: a letter for the ace and the court cards, the
/// number for the others.
pub open spec fn rank_name(r: u8) -> Seq<char> {
    if r == 1 {
        "A"@
    } else if r == 2 {
        "2"@
    } else if r == 3 {
        "3"@
    } else if r == 4 {
        "4"@
    } else if r == 5 {
        "5"@
    } else if r == 6 {
        "6"@
    } else if r == 7 {
        "7"@
    } else if r == 8 {
        "8"@
    } else if r == 9 {
        "9"@
    } else if r == 10 {
        "10"@
    } else if r == 11 {
        "J"@
    } else if r == 12 {
        "Q"@
    } else {
        "K"@
    }
}

/// The name of the rank `r`, which is one of the ranks 1 to 13.
pub fn rank_to_str(r: u8) -> (s: String)
    requires
        1 <= r <= 13,
    ensures
        s@ == rank_name(r),
{
    if r == 1 {
        String::from_str("A")
    } else if r == 2 {
        String::from_str("2")
    } else if r == 3 {
        String::from_str("3")
    } else if r == 4 {
        String::from_str("4")
    } else if r == 5 {
        String::from_str("5")
    } else if r == 6 {
        String::from_str("6")
    } else if r == 7 {
        String::from_str("7")
    } else if r == 8 {
        String::from_str("8")
    } else if r == 9 {
        String::from_str("9")
    } else if r == 10 {
        String::from_str("10")
    } else if r == 11 {
        String::from_str("J")
    } else if r == 12 {
        String::from_str("Q")
    } else {
        String::from_str("K")
    }
}

impl CardSuit {
    /// The sign of the suit.
    pub open spec fn sign(&self) -> char {
        match self {
            CardSuit::Clubs => '\u{2663}',
            CardSuit::Diamonds => '\u{2662}',
            CardSuit::Hearts => '\u{2661}',
            CardSuit::Spades => '\u{2660}',
        }
    }

    /// The sign of the suit, as a string.
    pub fn to_str(&self) -> (s: String)
        ensures
            s@ == seq![self.sign()],
    {
        let mut s = String::new();
        push_char(
            &mut s,
            match self {
                CardSuit::Clubs => '\u{2663}',
                CardSuit::Diamonds => '\u{2662}',
                CardSuit::Hearts => '\u{2661}',
                CardSuit::Spades => '\u{2660}',
            },
        );
        assert(s@ =~= seq![self.sign()]);
        s
    }
}

/// How a card that shows `f` is written: its rank and the sign of its
/// suit, in brackets if it lies face down.
pub open spec fn face_text(f: Face) -> Seq<char> {
    match f.tag {
        CardTag::FaceUp => rank_name(f.rank).push(f.suit.sign()),
        CardTag::FaceDown => (seq!['('] + rank_name(f.rank).push(f.suit.sign())).push(')'),
    }
}

/// How the cards `pile` are written: one after another, with a comma
/// between each two.
pub open spec fn pile_text(pile: Seq<Face>) -> Seq<char>
    decreases pile.len(),
{
    if pile.len() == 0 {
        Seq::empty()
    } else if pile.len() == 1 {
        face_text(pile[0])
    } else {
        pile_text(pile.drop_last()).push(',') + face_text(pile.last())
    }
}

impl Card {
    pub fn rank_to_str(&self) -> (s: String)
        requires
            1 <= self.rank <= 13,
        ensures
            s@ == rank_name(self.rank),
    {
        rank_to_str(self.rank)
    }

    /// The card, written: its rank and the sign of its suit, in brackets if
    /// it lies face down.
    pub fn to_str(&self) -> (s: String)
        requires
            1 <= self.rank <= 13,
        ensures
            s@ == face_text(self.face()),
    {
        let mut content = self.rank_to_str();
        content.append(self.suit.to_str().as_str());
        assert(content@ =~= rank_name(self.rank).push(self.suit.sign()));
        match self.tag {
            CardTag::FaceUp => content,
            CardTag::FaceDown => {
                let mut s = String::from_str("(");
                proof {
                    reveal_strlit("(");
                    reveal_strlit(")");
                }
                s.append(content.as_str());
                s.append(")");
                assert(s@ =~= (seq!['('] + rank_name(self.rank).push(self.suit.sign())).push(')'));
                s
            },
        }
    }
}

/// A pile of cards.
#[derive(Debug)]
pub struct Pile {
    pub cards: Option<Box<Card>>,
}

/// Turns `newcard` face up and puts it on top of `pile`.
pub fn place_faceup(newcard: Box<Card>, pile: Option<Box<Card>>) -> (top: Box<Card>)
    ensures
        top.chain() == seq![Face { tag: CardTag::FaceUp, ..newcard.face() }] + cards(pile),
{
    let mut newcard = newcard;
    newcard.next = pile;
    newcard.tag = CardTag::FaceUp;
    newcard
}

impl Pile {
    /// Puts `newcard` on top of the pile, face up.
    pub fn place_top_faceup(&mut self, newcard: Box<Card>)
        ensures
            cards(final(self).cards) == seq![Face { tag: CardTag::FaceUp, ..newcard.face() }]
                + cards(old(self).cards),
    {
        let below = self.cards.take();
        self.cards = Some(place_faceup(newcard, below));
    }

    /// Takes the top card off the pile, which must have a card.
    pub fn pop_top(&mut self) -> (top: Box<Card>)
        requires
            old(self).cards is Some,
        ensures
            top.chain() == seq![cards(old(self).cards)[0]],
            cards(final(self).cards) == cards(old(self).cards).drop_first(),
    {
        let ghost all = cards(self.cards);
        match self.cards.take() {
            Some(card) => {
                let mut card = card;
                let mut next: Option<Box<Card>> = None;
                core::mem::swap(&mut next, &mut card.next);
                self.cards = next;
                assert(card.chain() =~= seq![all[0]]);
                assert(cards(self.cards) =~= all.drop_first());
                card
            },
            None => vstd::pervasive::unreached(),
        }
    }

    /// Turns `newcard` face down and puts it below the pile.
    pub fn place_bot_facedown(&mut self, newcard: Box<Card>)
        ensures
            cards(final(self).cards) == cards(old(self).cards) + seq![
                Face { tag: CardTag::FaceDown, ..newcard.face() },
            ] + cards(newcard.next),
    {
        let ghost tail = cards(newcard.next);
        let mut newcard = newcard;
        newcard.tag = CardTag::FaceDown;
        assert(newcard.chain() =~= seq![newcard.face()] + tail);
        self.cards = match self.cards.take() {
            None => {
                assert(cards(Some(newcard)) =~= cards(None) + seq![newcard.face()] + tail);
                Some(newcard)
            },
            Some(cards0) => {
                let ghost above = cards0.chain();
                let top = place_bot(Some(cards0), newcard);
                assert(cards(Some(top)) =~= above + seq![newcard.face()] + tail);
                Some(top)
            },
        };
    }

    /// The pile, written: its cards from the top down, with a comma between
    /// each two.
    pub fn to_str(&self) -> (ret: String)
        requires
            forall|i: int| 0 <= i < cards(self.cards).len() ==> 1 <= (#[trigger] cards(
                self.cards,
            )[i]).rank <= 13,
        ensures
            ret@ == pile_text(cards(self.cards)),
    {
        let ghost all = cards(self.cards);
        let ghost mut done: Seq<Face> = Seq::empty();
        let mut ret = String::new();
        let mut printed = false;
        let mut cursor = &self.cards;
        loop
            invariant
                all == cards(self.cards),
                forall|i: int| 0 <= i < all.len() ==> 1 <= (#[trigger] all[i]).rank <= 13,
                done + cards(*cursor) == all,
                printed == (done.len() > 0),
                ret@ == pile_text(done),
            ensures
                ret@ == pile_text(all),
            decreases cards(*cursor).len(),
        {
            match cursor {
                None => {
                    assert(done =~= all);
                    break ;
                },
                Some(card) => {
                    proof {
                        assert(all[done.len() as int] == card.face());
                        reveal_strlit(",");
                    }
                    if printed {
                        ret.append(",");
                    }
                    ret.append(card.to_str().as_str());
                    printed = true;
                    proof {
                        let before = done;
                        done = done.push(card.face());
                        assert(done.drop_last() =~= before);
                        assert(done + cards(card.next) =~= all);
                        if before.len() > 0 {
                            assert(ret@ =~= pile_text(before).push(',') + face_text(card.face()));
                        } else {
                            assert(ret@ =~= face_text(card.face()));
                        }
                    }
                    cursor = &card.next;
                },
            }
        }
        ret
    }
}

/// The hand of the example: the two of diamonds, face up, on the three of
/// spades, face up, on the ten of clubs, face down.
pub fn make_hand() -> (hand: Box<Card>)
    ensures
        hand.chain().len() == 3,
        hand.chain()[0].rank == 2 && hand.chain()[0].suit == CardSuit::Diamonds && hand.chain()[0].tag
            == CardTag::FaceUp,
        hand.chain()[1].rank == 3 && hand.chain()[1].suit == CardSuit::Spades && hand.chain()[1].tag
            == CardTag::FaceUp,
        hand.chain()[2].rank == 10 && hand.chain()[2].suit == CardSuit::Clubs && hand.chain()[2].tag
            == CardTag::FaceDown,
        hand.chain()[0].title == seq![' ', ' ', '2', ' ', 'D'],
        hand.chain()[1].title == seq![' ', ' ', '3', ' ', 'S'],
        hand.chain()[2].title == seq![' ', '1', '0', ' ', 'C'],
{
    let hand = Box::new(
        Card {
            tag: CardTag::FaceDown,
            suit: CardSuit::Clubs,
            rank: 10,
            next: None,
            title: [' ', '1', '0', ' ', 'C'],
        },
    );
    let hand = Box::new(
        Card {
            tag: CardTag::FaceUp,
            suit: CardSuit::Spades,
            rank: 3,
            next: Some(hand),
            title: [' ', ' ', '3', ' ', 'S'],
        },
    );
    let hand = Box::new(
        Card {
            tag: CardTag::FaceUp,
            suit: CardSuit::Diamonds,
            rank: 2,
            next: Some(hand),
            title: [' ', ' ', '2', ' ', 'D'],
        },
    );
    proof {
        reveal_with_fuel(cards, 4);
        assert(hand.chain()[0].title =~= seq![' ', ' ', '2', ' ', 'D']);
        assert(hand.chain()[1].title =~= seq![' ', ' ', '3', ' ', 'S']);
        assert(hand.chain()[2].title =~= seq![' ', '1', '0', ' ', 'C']);
    }
    hand
}

} // verus!
