//! Playing cards kept in a store and linked into piles by the index of the
//! next card, as in the exercises on linked allocation.

use vstd::prelude::*;
use crate::text::{char_of, push_char, utf8_str};
use vstd::string::StringExecFns;
use vstd::utf8::{decode_utf8, valid_utf8};

verus! {

#[derive(Clone, Copy, PartialEq, Eq, Structural, Debug)]
pub enum Facing {
    FaceDown,
    FaceUp,
}

#[derive(Clone, Copy, PartialEq, Eq, Structural, Debug)]
pub enum Suit {
    Clubs,
    Diamonds,
    Hearts,
    Spades,
}

#[derive(Clone, Copy, PartialEq, Eq, Structural, Debug)]
pub enum Rank {
    Ace,
    R2,
    R3,
    R4,
    R5,
    R6,
    R7,
    R8,
    R9,
    R10,
    Jack,
    Queen,
    King,
}

/// How the face of a card is written.
#[derive(Clone, Copy, PartialEq, Eq, Structural, Debug)]
pub enum FaceFormat {
    Compact,
    Legible,
    Ascii,
}

/// The title of a card: five bytes of text.
#[derive(Clone, Copy, Debug)]
pub struct CardTitle {
    pub bytes: [u8; 5],
}

impl CardTitle {
    /// The title as text.
    pub fn to_string(&self) -> (s: String)
        requires
            valid_utf8(self.bytes@),
        ensures
            s@ == decode_utf8(self.bytes@),
    {
        utf8_str(self.bytes.as_slice()).to_owned()
    }
}

/// What can be made the title of a card.
pub trait ToCardTitle: Sized {
    /// This value has the five bytes of a title.
    spec fn fits(&self) -> bool;

    /// The five bytes of the title.
    spec fn title_bytes(&self) -> Seq<u8>;

    fn to_card_title(self) -> (t: CardTitle)
        requires
            self.fits(),
        ensures
            t.bytes@ == self.title_bytes(),
    ;
}

impl ToCardTitle for [u8; 5] {
    open spec fn fits(&self) -> bool {
        true
    }

    open spec fn title_bytes(&self) -> Seq<u8> {
        self@
    }

    fn to_card_title(self) -> (t: CardTitle) {
        CardTitle { bytes: self }
    }
}

impl<'a> ToCardTitle for &'a [u8; 5] {
    open spec fn fits(&self) -> bool {
        true
    }

    open spec fn title_bytes(&self) -> Seq<u8> {
        self@
    }

    fn to_card_title(self) -> (t: CardTitle) {
        CardTitle { bytes: *self }
    }
}

impl<'a> ToCardTitle for &'a [u8] {
    open spec fn fits(&self) -> bool {
        self@.len() == 5
    }

    open spec fn title_bytes(&self) -> Seq<u8> {
        self@
    }

    fn to_card_title(self) -> (t: CardTitle) {
        let t = CardTitle { bytes: [self[0], self[1], self[2], self[3], self[4]] };
        assert(t.bytes@ =~= self@);
        t
    }
}

impl Suit {
    /// The sign of the suit.
    pub fn unicode_char(&self) -> (c: char)
        ensures
            c == match *self {
                Suit::Spades => '\u{2660}',
                Suit::Hearts => '\u{2661}',
                Suit::Diamonds => '\u{2662}',
                Suit::Clubs => '\u{2663}',
            },
    {
        match *self {
            Suit::Spades => '\u{2660}',
            Suit::Hearts => '\u{2661}',
            Suit::Diamonds => '\u{2662}',
            Suit::Clubs => '\u{2663}',
        }
    }

    /// The character that shows the ace of the suit.
    pub fn ace_char(&self) -> (c: char)
        ensures
            c == self.spec_ace_char(),
    {
        match *self {
            Suit::Spades => '\u{1F0A1}',
            Suit::Hearts => '\u{1F0B1}',
            Suit::Diamonds => '\u{1F0C1}',
            Suit::Clubs => '\u{1F0D1}',
        }
    }

    pub open spec fn spec_ace_char(&self) -> char {
        match *self {
            Suit::Spades => '\u{1F0A1}',
            Suit::Hearts => '\u{1F0B1}',
            Suit::Diamonds => '\u{1F0C1}',
            Suit::Clubs => '\u{1F0D1}',
        }
    }

    /// The letter of the suit.
    pub fn ascii_char(&self) -> (c: char)
        ensures
            c == match *self {
                Suit::Spades => 'S',
                Suit::Hearts => 'H',
                Suit::Diamonds => 'D',
                Suit::Clubs => 'C',
            },
    {
        match *self {
            Suit::Spades => 'S',
            Suit::Hearts => 'H',
            Suit::Diamonds => 'D',
            Suit::Clubs => 'C',
        }
    }
}

impl Rank {
    /// The number of the rank: 1 for the ace, 13 for the king.
    pub open spec fn number(&self) -> int {
        match *self {
            Rank::Ace => 1,
            Rank::R2 => 2,
            Rank::R3 => 3,
            Rank::R4 => 4,
            Rank::R5 => 5,
            Rank::R6 => 6,
            Rank::R7 => 7,
            Rank::R8 => 8,
            Rank::R9 => 9,
            Rank::R10 => 10,
            Rank::Jack => 11,
            Rank::Queen => 12,
            Rank::King => 13,
        }
    }

    /// The name of the rank: a letter for the ace and the court cards, the
    /// number for the others.
    pub open spec fn name(&self) -> Seq<char> {
        match *self {
            Rank::Ace => "A"@,
            Rank::R2 => "2"@,
            Rank::R3 => "3"@,
            Rank::R4 => "4"@,
            Rank::R5 => "5"@,
            Rank::R6 => "6"@,
            Rank::R7 => "7"@,
            Rank::R8 => "8"@,
            Rank::R9 => "9"@,
            Rank::R10 => "10"@,
            Rank::Jack => "J"@,
            Rank::Queen => "Q"@,
            Rank::King => "K"@,
        }
    }

    pub fn ascii_string(&self) -> (s: String)
        ensures
            s@ == self.name(),
    {
        match *self {
            Rank::Ace => String::from_str("A"),
            Rank::King => String::from_str("K"),
            Rank::Queen => String::from_str("Q"),
            Rank::Jack => String::from_str("J"),
            Rank::R2 => String::from_str("2"),
            Rank::R3 => String::from_str("3"),
            Rank::R4 => String::from_str("4"),
            Rank::R5 => String::from_str("5"),
            Rank::R6 => String::from_str("6"),
            Rank::R7 => String::from_str("7"),
            Rank::R8 => String::from_str("8"),
            Rank::R9 => String::from_str("9"),
            Rank::R10 => String::from_str("10"),
        }
    }

    /// How many ranks above the ace this rank stands.
    pub fn offset_from_ace(&self) -> (n: u8)
        ensures
            n == self.number() - 1,
    {
        match *self {
            Rank::Ace => 0,
            Rank::R2 => 1,
            Rank::R3 => 2,
            Rank::R4 => 3,
            Rank::R5 => 4,
            Rank::R6 => 5,
            Rank::R7 => 6,
            Rank::R8 => 7,
            Rank::R9 => 8,
            Rank::R10 => 9,
            Rank::Jack => 10,
            Rank::Queen => 11,
            Rank::King => 12,
        }
    }
}

/// A card of a store: its place in a pile is told by `next`, the index of
/// the card below it, or 0 for none.
#[derive(Clone, Copy, Debug)]
pub struct Card {
    pub next: u16,
    pub tag: Facing,
    pub suit: Suit,
    pub rank: Rank,
    pub title: CardTitle,
}

impl Card {
    /// The character that shows the face of the card: that of the ace of
    /// its suit, moved on by the rank.
    pub open spec fn spec_face_char(&self) -> char {
        ((self.suit.spec_ace_char() as u32 + (self.rank.number() - 1)) as u32) as char
    }

    /// The face of the card, written in the format `ff`.
    pub open spec fn spec_face_string(&self, ff: FaceFormat) -> Seq<char> {
        match ff {
            FaceFormat::Compact => seq![self.spec_face_char()],
            FaceFormat::Legible => self.rank.name().push(
                match self.suit {
                    Suit::Spades => '\u{2660}',
                    Suit::Hearts => '\u{2661}',
                    Suit::Diamonds => '\u{2662}',
                    Suit::Clubs => '\u{2663}',
                },
            ),
            FaceFormat::Ascii => self.rank.name().push(
                match self.suit {
                    Suit::Spades => 'S',
                    Suit::Hearts => 'H',
                    Suit::Diamonds => 'D',
                    Suit::Clubs => 'C',
                },
            ),
        }
    }

    pub fn face_unicode_char(&self) -> (c: char)
        ensures
            c == self.spec_face_char(),
    {
        let base = self.suit.ace_char() as u32;
        let v = base + self.rank.offset_from_ace() as u32;
        match char_of(v) {
            Some(c) => c,
            None => vstd::pervasive::unreached(),
        }
    }

    pub fn face_string(&self, ff: FaceFormat) -> (s: String)
        ensures
            s@ == self.spec_face_string(ff),
    {
        match ff {
            FaceFormat::Compact => {
                let mut s = String::new();
                push_char(&mut s, self.face_unicode_char());
                assert(s@ =~= seq![self.spec_face_char()]);
                s
            },
            FaceFormat::Legible => {
                let mut s = self.rank.ascii_string();
                push_char(&mut s, self.suit.unicode_char());
                s
            },
            FaceFormat::Ascii => {
                let mut s = self.rank.ascii_string();
                push_char(&mut s, self.suit.ascii_char());
                s
            },
        }
    }

    /// The back of a card, in plain letters.
    pub fn back_ascii_string(&self) -> (s: String)
        ensures
            s@ == "[]"@,
    {
        String::from_str("[]")
    }

    /// The card as it lies: its face in rank and suit sign if it is face
    /// up, its back if not.
    pub fn unicode_string(&self) -> (s: String)
        ensures
            s@ == match self.tag {
                Facing::FaceUp => self.spec_face_string(FaceFormat::Legible),
                Facing::FaceDown => "[]"@,
            },
    {
        match self.tag {
            Facing::FaceUp => self.face_string(FaceFormat::Legible),
            Facing::FaceDown => self.back_ascii_string(),
        }
    }

    /// The card as it lies, in plain letters: its face in rank and suit
    /// letter if it is face up, its back if not.
    pub fn ascii_string(&self) -> (s: String)
        ensures
            s@ == match self.tag {
                Facing::FaceUp => self.spec_face_string(FaceFormat::Ascii),
                Facing::FaceDown => "[]"@,
            },
    {
        match self.tag {
            Facing::FaceUp => self.face_string(FaceFormat::Ascii),
            Facing::FaceDown => self.back_ascii_string(),
        }
    }

    /// A single card, not yet on any pile.
    pub fn new<FC: ToCardTitle>(tag: Facing, suit: Suit, rank: Rank, to_title: FC) -> (c: Card)
        requires
            to_title.fits(),
        ensures
            c.next == 0,
            c.tag == tag,
            c.suit == suit,
            c.rank == rank,
            c.title.bytes@ == to_title.title_bytes(),
    {
        Card { next: 0, tag: tag, suit: suit, rank: rank, title: to_title.to_card_title() }
    }

    /// This card on top of the card at index `next`.
    pub fn atop(self, next: u16) -> (c: Card)
        ensures
            c == (Card { next: next, ..self }),
    {
        Card { next: next, ..self }
    }
}

/// The card `c` is the card without meaning: the ace of clubs, face up,
/// on no card, with an empty title.
pub open spec fn is_void(c: Card) -> bool {
    &&& c.next == 0
    &&& c.tag == Facing::FaceUp
    &&& c.suit == Suit::Clubs
    &&& c.rank == Rank::Ace
    &&& c.title.bytes@ == seq![0u8, 0u8, 0u8, 0u8, 0u8]
}

/// A card without meaning, to fill a store with.
pub fn void_card() -> (c: Card)
    ensures
        is_void(c),
{
    let c = Card {
        next: 0,
        tag: Facing::FaceUp,
        suit: Suit::Clubs,
        rank: Rank::Ace,
        title: CardTitle { bytes: [0, 0, 0, 0, 0] },
    };
    assert(c.title.bytes@ =~= seq![0u8, 0u8, 0u8, 0u8, 0u8]);
    c
}

/// A reference to a single card of a store: a card that lies on no other.
#[derive(Clone, Copy, Debug)]
pub struct CardRef {
    pub index: u16,
}

/// A pile of cards of a store: the index of its top card, or 0 for the
/// empty pile.
#[derive(Clone, Copy, Debug)]
pub struct Pile {
    pub top: u16,
}

/// The cards. The card at index 0 stands for "no card".
pub struct CardStore {
    pub cards: Vec<Card>,
}

/// The most cards that a pile can hold: every index but 0.
pub open spec fn pile_limit() -> nat {
    0xFFFF
}

impl CardStore {
    /// Following `next` from the card at `top` leads, within `fuel` steps
    /// and through cards of the store, to the end of a pile.
    pub open spec fn ends(&self, top: u16, fuel: nat) -> bool
        decreases fuel,
    {
        top == 0 || (fuel > 0 && (top as int) < self.cards@.len() && self.ends(
            self.cards@[top as int].next,
            (fuel - 1) as nat,
        ))
    }

    /// The indices of the cards met by following `next` from the card at
    /// `top`, at most `fuel` of them.
    pub open spec fn chain(&self, top: u16, fuel: nat) -> Seq<u16>
        decreases fuel,
    {
        if top == 0 || fuel == 0 || top as int >= self.cards@.len() {
            Seq::empty()
        } else {
            seq![top] + self.chain(self.cards@[top as int].next, (fuel - 1) as nat)
        }
    }

    /// `pile` is a pile of this store: from its top card the `next` links
    /// lead through cards of the store to an end.
    pub open spec fn holds(&self, pile: Pile) -> bool {
        self.ends(pile.top, pile_limit())
    }

    /// The indices of the cards of `pile`, from the top down.
    pub open spec fn cards_of(&self, pile: Pile) -> Seq<u16> {
        self.chain(pile.top, pile_limit())
    }

    /// A store of `size` cards without meaning.
    pub fn prefilled(size: u16) -> (store: Box<CardStore>)
        ensures
            store.cards@.len() == size,
            forall|i: int| 0 <= i < size ==> is_void(#[trigger] store.cards@[i]),
    {
        let mut cards: Vec<Card> = Vec::new();
        let mut i: u16 = 0;
        while i < size
            invariant
                0 <= i <= size,
                cards@.len() == i,
                forall|k: int| 0 <= k < i ==> is_void(#[trigger] cards@[k]),
            decreases size - i,
        {
            cards.push(void_card());
            i = i + 1;
        }
        Box::new(CardStore { cards: cards })
    }

    /// Puts `card` at index `idx`, and gives the pile whose top it is.
    pub fn replace_at(&mut self, idx: u16, card: Card) -> (pile: Pile)
        requires
            (idx as int) < old(self).cards@.len(),
        ensures
            final(self).cards@ == old(self).cards@.update(idx as int, card),
            pile.top == idx,
    {
        self.cards[idx as usize] = card;
        Pile { top: idx }
    }

    /// A store without cards.
    pub fn new() -> (store: CardStore)
        ensures
            store.cards@.len() == 0,
    {
        CardStore { cards: Vec::new() }
    }
}

impl Pile {
    /// The card on top of the pile.
    pub fn top_card<'a>(&self, store: &'a CardStore) -> (card: &'a Card)
        requires
            (self.top as int) < store.cards@.len(),
        ensures
            *card == store.cards@[self.top as int],
    {
        &store.cards[self.top as usize]
    }

    /// The number of cards of the pile.
    pub fn count(&self, store: &CardStore) -> (n: u16)
        requires
            store.holds(*self),
        ensures
            n == store.cards_of(*self).len(),
    {
        let mut count: u16 = 0;
        let mut cursor: usize = self.top as usize;
        while cursor != 0
            invariant
                0 <= count <= pile_limit(),
                cursor <= u16::MAX,
                store.ends(cursor as u16, (pile_limit() - count) as nat),
                count + store.chain(cursor as u16, (pile_limit() - count) as nat).len()
                    == store.cards_of(*self).len(),
            decreases pile_limit() - count,
        {
            let card = &store.cards[cursor];
            count = count + 1;
            cursor = card.next as usize;
        }
        count
    }

    /// Puts the single card `newcard` on top of the pile.
    pub fn place_face_up(&mut self, store: &mut CardStore, newcard: CardRef)
        requires
            (newcard.index as int) < old(store).cards@.len(),
        ensures
            final(self).top == newcard.index,
            final(store).cards@ == old(store).cards@.update(
                newcard.index as int,
                Card { next: old(self).top, ..old(store).cards@[newcard.index as int] },
            ),
    {
        store.cards[newcard.index as usize].next = self.top;
        self.top = newcard.index;
    }

    /// Takes the top card off the pile, if the pile has a card, and gives
    /// a reference to it.
    pub fn pop_v1(&mut self, store: &mut CardStore) -> (r: Option<CardRef>)
        requires
            (old(self).top as int) < old(store).cards@.len(),
        ensures
            old(self).top == 0 ==> r is None && *final(self) == *old(self)
                && *final(store) == *old(store),
            old(self).top != 0 ==> {
                &&& r matches Some(cr)
                &&& cr.index == old(self).top
                &&& final(self).top == old(store).cards@[old(self).top as int].next
                &&& final(store).cards@ == old(store).cards@.update(
                    old(self).top as int,
                    Card { next: 0, ..old(store).cards@[old(self).top as int] },
                )
            },
    {
        if self.top != 0 {
            let top_orig = self.top;
            self.top = store.cards[top_orig as usize].next;
            store.cards[top_orig as usize].next = 0u16;
            Some(CardRef { index: top_orig })
        } else {
            None
        }
    }

    /// Takes the top card off the pile, if the pile has a card, and gives
    /// a reference to it.
    pub fn pop(&mut self, store: &mut CardStore) -> (r: Option<CardRef>)
        requires
            (old(self).top as int) < old(store).cards@.len(),
        ensures
            old(self).top == 0 ==> r is None && *final(self) == *old(self)
                && *final(store) == *old(store),
            old(self).top != 0 ==> {
                &&& r matches Some(cr)
                &&& cr.index == old(self).top
                &&& final(self).top == old(store).cards@[old(self).top as int].next
                &&& final(store).cards@ == old(store).cards@.update(
                    old(self).top as int,
                    Card { next: 0, ..old(store).cards@[old(self).top as int] },
                )
            },
    {
        if self.top != 0 {
            let top_orig = self.top;
            self.top = store.cards[top_orig as usize].next;
            store.cards[top_orig as usize].next = 0u16;
            Some(CardRef { index: top_orig })
        } else {
            None
        }
    }
}

impl CardRef {
    /// The title of the card, as text.
    pub fn title_string(&self, store: &CardStore) -> (s: String)
        requires
            (self.index as int) < store.cards@.len(),
            valid_utf8(store.cards@[self.index as int].title.bytes@),
        ensures
            s@ == decode_utf8(store.cards@[self.index as int].title.bytes@),
    {
        store.cards[self.index as usize].title.to_string()
    }
}

/// A pile together with the store that its cards are in.
pub struct CurrentPile<'a> {
    pub store: &'a mut CardStore,
    pub pile: Pile,
}

impl CardStore {
    /// The pile whose top is the card at index `idx`, together with this
    /// store.
    pub fn current_pile_at<'a>(&'a mut self, idx: u16) -> (cp: CurrentPile<'a>)
        requires
            (idx as int) < old(self).cards@.len(),
        ensures
            cp.pile.top == idx,
            *cp.store == *old(self),
            *final(self) == *final(cp.store),
    {
        CurrentPile { store: self, pile: Pile { top: idx } }
    }
}

impl<'a> CurrentPile<'a> {
    pub fn place_face_up(&mut self, newcard: CardRef)
        requires
            (newcard.index as int) < old(self).store.cards@.len(),
        ensures
            final(self).pile.top == newcard.index,
            final(self).store.cards@ == old(self).store.cards@.update(
                newcard.index as int,
                Card { next: old(self).pile.top, ..old(self).store.cards@[newcard.index as int] },
            ),
    {
        self.pile.place_face_up(self.store, newcard)
    }

    pub fn count(&self) -> (n: u16)
        requires
            self.store.holds(self.pile),
        ensures
            n == old(self.store).cards_of(self.pile).len(),
    {
        self.pile.count(self.store)
    }

    pub fn top_card(&self) -> (card: &Card)
        requires
            (self.pile.top as int) < self.store.cards@.len(),
        ensures
            *card == old(self.store).cards@[self.pile.top as int],
    {
        self.pile.top_card(self.store)
    }

    pub fn pop(&mut self) -> (r: Option<CardRef>)
        requires
            (old(self).pile.top as int) < old(self).store.cards@.len(),
        ensures
            old(self).pile.top == 0 ==> r is None && final(self).pile == old(self).pile
                && *final(self).store == *old(self).store,
            old(self).pile.top != 0 ==> {
                &&& r matches Some(cr)
                &&& cr.index == old(self).pile.top
                &&& final(self).pile.top == old(self).store.cards@[old(self).pile.top as int].next
                &&& final(self).store.cards@ == old(self).store.cards@.update(
                    old(self).pile.top as int,
                    Card { next: 0, ..old(self).store.cards@[old(self).pile.top as int] },
                )
            },
    {
        self.pile.pop(self.store)
    }
}

/// The texts `parts`, one after another with a comma between each two.
pub open spec fn joined(parts: Seq<Seq<char>>) -> Seq<char>
    decreases parts.len(),
{
    if parts.len() == 0 {
        Seq::empty()
    } else if parts.len() == 1 {
        parts[0]
    } else {
        joined(parts.drop_last()).push(',') + parts.last()
    }
}

impl CardStore {
    /// `text` is what `on_card` can write for the card at index `card`.
    pub open spec fn wrote<F: Fn(&Card) -> String>(
        &self,
        on_card: &F,
        card: u16,
        text: Seq<char>,
    ) -> bool {
        exists|t: String| t@ == text && call_ensures(*on_card, (&self.cards@[card as int],), t)
    }

    /// The place `i` of `parts` is what `on_card` can write for the card
    /// at place `i` of `cards`.
    pub open spec fn written_at<F: Fn(&Card) -> String>(
        &self,
        on_card: &F,
        cards: Seq<u16>,
        parts: Seq<Seq<char>>,
        i: int,
    ) -> bool {
        self.wrote(on_card, cards[i], parts[i])
    }

    /// The texts `parts` are what `on_card` can write for the cards at the
    /// indices `cards`, one for each.
    pub open spec fn written<F: Fn(&Card) -> String>(
        &self,
        on_card: &F,
        cards: Seq<u16>,
        parts: Seq<Seq<char>>,
    ) -> bool {
        &&& parts.len() == cards.len()
        &&& forall|i: int|
            0 <= i < cards.len() ==> #[trigger] self.written_at(on_card, cards, parts, i)
    }
}

impl Pile {
    /// Writes the cards of the pile from the top down, each as `on_card`
    /// writes it, with a comma between each two.
    pub fn write_all<F: Fn(&Card) -> String>(&self, store: &CardStore, on_card: &F) -> (out: String)
        requires
            store.holds(*self),
            forall|i: int|
                0 <= i < store.cards_of(*self).len() ==> call_requires(
                    *on_card,
                    (&store.cards@[#[trigger] store.cards_of(*self)[i] as int],),
                ),
        ensures
            exists|parts: Seq<Seq<char>>|
                store.written(on_card, store.cards_of(*self), parts) && out@ == joined(parts),
    {
        let mut out = String::new();
        let ghost mut parts: Seq<Seq<char>> = Seq::empty();
        let ghost mut done: Seq<u16> = Seq::empty();
        let mut cursor: usize = self.top as usize;
        while cursor != 0
            invariant
                forall|i: int|
                    0 <= i < store.cards_of(*self).len() ==> call_requires(
                        *on_card,
                        (&store.cards@[#[trigger] store.cards_of(*self)[i] as int],),
                    ),
                cursor <= u16::MAX,
                done.len() <= pile_limit(),
                store.ends(cursor as u16, (pile_limit() - done.len()) as nat),
                done + store.chain(cursor as u16, (pile_limit() - done.len()) as nat)
                    == store.cards_of(*self),
                store.written(on_card, done, parts),
                out@ == if cursor != 0 && done.len() > 0 {
                    joined(parts).push(',')
                } else {
                    joined(parts)
                },
            decreases pile_limit() - done.len(),
        {
            let card = &store.cards[cursor];
            proof {
                let rest = store.chain(cursor as u16, (pile_limit() - done.len()) as nat);
                assert(rest[0] == cursor as u16);
                assert((done + rest)[done.len() as int] == cursor as u16);
            }
            let text = on_card(card);
            let ghost before = parts;
            let ghost before_done = done;
            let ghost cur = cursor as u16;
            out.append(text.as_str());
            proof {
                parts = parts.push(text@);
                done = done.push(cur);
                assert(parts.drop_last() =~= before);
                assert forall|i: int| 0 <= i < done.len() implies #[trigger] store.written_at(
                    on_card,
                    done,
                    parts,
                    i,
                ) by {
                    if i < before.len() {
                        assert(parts[i] == before[i]);
                        assert(done[i] == before_done[i]);
                        assert(store.written_at(on_card, before_done, before, i));
                    } else {
                        assert(done[i] == cur);
                        assert(text@ == parts[i] && call_ensures(
                            *on_card,
                            (&store.cards@[done[i] as int],),
                            text,
                        ));
                    }
                }
                assert(parts.len() == done.len());
                assert(store.written(on_card, done, parts));
                assert(done + store.chain(card.next, (pile_limit() - done.len()) as nat)
                    =~= store.cards_of(*self));
                if before.len() == 0 {
                    assert(joined(parts) =~= text@);
                }
            }
            cursor = card.next as usize;
            if cursor != 0 {
                out.append(",");
                proof {
                    reveal_strlit(",");
                    assert(out@ =~= joined(parts).push(','));
                }
            }
        }
        proof {
            assert(done =~= store.cards_of(*self));
        }
        out
    }
}

impl Card {
    /// The card as it lies, in plain letters.
    pub open spec fn spec_ascii_string(&self) -> Seq<char> {
        match self.tag {
            Facing::FaceUp => self.spec_face_string(FaceFormat::Ascii),
            Facing::FaceDown => "[]"@,
        }
    }

    /// The card as it lies, in rank and suit sign.
    pub open spec fn spec_unicode_string(&self) -> Seq<char> {
        match self.tag {
            Facing::FaceUp => self.spec_face_string(FaceFormat::Legible),
            Facing::FaceDown => "[]"@,
        }
    }
}

impl CardStore {
    /// The cards at the indices `cards`, each written by `text`.
    pub open spec fn texts(&self, cards: Seq<u16>, text: spec_fn(Card) -> Seq<char>) -> Seq<
        Seq<char>,
    > {
        Seq::new(cards.len(), |i: int| text(self.cards@[cards[i] as int]))
    }
}

/// Texts that were written card by card by a writer that writes `text` are
/// the texts of the cards.
proof fn lemma_written<F: Fn(&Card) -> String>(
    store: &CardStore,
    on_card: &F,
    cards: Seq<u16>,
    parts: Seq<Seq<char>>,
    text: spec_fn(Card) -> Seq<char>,
)
    requires
        store.written(on_card, cards, parts),
        forall|card: &Card, t: String| call_ensures(*on_card, (card,), t) ==> t@ == text(*card),
    ensures
        parts == store.texts(cards, text),
{
    assert forall|i: int| 0 <= i < cards.len() implies parts[i] == store.texts(cards, text)[i] by {
        assert(store.written_at(on_card, cards, parts, i));
        let t = choose|t: String|
            t@ == parts[i] && call_ensures(*on_card, (&store.cards@[cards[i] as int],), t);
        assert(t@ == text(store.cards@[cards[i] as int]));
    }
    assert(parts =~= store.texts(cards, text));
}

impl<'a> CurrentPile<'a> {
    /// The titles of the cards of the pile, from the top down, each with a
    /// line end after it and a comma between each two.
    pub fn write_all_titles(&self) -> (out: String)
        requires
            self.store.holds(self.pile),
            forall|i: int|
                0 <= i < self.store.cards@.len() ==> valid_utf8(
                    (#[trigger] self.store.cards@[i]).title.bytes@,
                ),
        ensures
            out@ == joined(
                old(self.store).texts(
                    old(self.store).cards_of(self.pile),
                    |c: Card| decode_utf8(c.title.bytes@).push('\n'),
                ),
            ),
    {
        let f = |card: &Card| -> (s: String)
            requires
                valid_utf8(card.title.bytes@),
            ensures
                s@ == decode_utf8(card.title.bytes@).push('\n'),
            {
                let mut s = card.title.to_string();
                push_char(&mut s, '\n');
                s
            };
        proof {
            lemma_chain_inside(self.store, self.pile.top, pile_limit());
        }
        let out = self.pile.write_all(self.store, &f);
        proof {
            let cards = self.store.cards_of(self.pile);
            let parts = choose|parts: Seq<Seq<char>>|
                self.store.written(&f, cards, parts) && out@ == joined(parts);
            lemma_written(
                self.store,
                &f,
                cards,
                parts,
                |c: Card| decode_utf8(c.title.bytes@).push('\n'),
            );
        }
        out
    }

    /// The cards of the pile as they lie, from the top down, in plain
    /// letters, with a comma between each two.
    pub fn write_all_ascii(&self) -> (out: String)
        requires
            self.store.holds(self.pile),
        ensures
            out@ == joined(
                old(self.store).texts(
                    old(self.store).cards_of(self.pile),
                    |c: Card| c.spec_ascii_string(),
                ),
            ),
    {
        let f = |card: &Card| -> (s: String)
            ensures
                s@ == card.spec_ascii_string(),
            { card.ascii_string() };
        let out = self.pile.write_all(self.store, &f);
        proof {
            let cards = self.store.cards_of(self.pile);
            let parts = choose|parts: Seq<Seq<char>>|
                self.store.written(&f, cards, parts) && out@ == joined(parts);
            lemma_written(self.store, &f, cards, parts, |c: Card| c.spec_ascii_string());
        }
        out
    }

    /// The cards of the pile as they lie, from the top down, in rank and
    /// suit sign, with a comma between each two.
    pub fn write_all_unicode(&self) -> (out: String)
        requires
            self.store.holds(self.pile),
        ensures
            out@ == joined(
                old(self.store).texts(
                    old(self.store).cards_of(self.pile),
                    |c: Card| c.spec_unicode_string(),
                ),
            ),
    {
        let f = |card: &Card| -> (s: String)
            ensures
                s@ == card.spec_unicode_string(),
            { card.unicode_string() };
        let out = self.pile.write_all(self.store, &f);
        proof {
            let cards = self.store.cards_of(self.pile);
            let parts = choose|parts: Seq<Seq<char>>|
                self.store.written(&f, cards, parts) && out@ == joined(parts);
            lemma_written(self.store, &f, cards, parts, |c: Card| c.spec_unicode_string());
        }
        out
    }

    /// The faces of the cards of the pile, from the top down, one
    /// character each, with a comma between each two.
    pub fn write_all_compact(&self) -> (out: String)
        requires
            self.store.holds(self.pile),
        ensures
            out@ == joined(
                old(self.store).texts(
                    old(self.store).cards_of(self.pile),
                    |c: Card| c.spec_face_string(FaceFormat::Compact),
                ),
            ),
    {
        let f = |card: &Card| -> (s: String)
            ensures
                s@ == card.spec_face_string(FaceFormat::Compact),
            { card.face_string(FaceFormat::Compact) };
        let out = self.pile.write_all(self.store, &f);
        proof {
            let cards = self.store.cards_of(self.pile);
            let parts = choose|parts: Seq<Seq<char>>|
                self.store.written(&f, cards, parts) && out@ == joined(parts);
            lemma_written(
                self.store,
                &f,
                cards,
                parts,
                |c: Card| c.spec_face_string(FaceFormat::Compact),
            );
        }
        out
    }
}

/// The cards of a chain are cards of the store.
proof fn lemma_chain_inside(store: &CardStore, top: u16, fuel: nat)
    ensures
        forall|i: int|
            0 <= i < store.chain(top, fuel).len() ==> (#[trigger] store.chain(top, fuel)[i] as int)
                < store.cards@.len(),
    decreases fuel,
{
    if !(top == 0 || fuel == 0 || top as int >= store.cards@.len()) {
        let rest = store.chain(store.cards@[top as int].next, (fuel - 1) as nat);
        lemma_chain_inside(store, store.cards@[top as int].next, (fuel - 1) as nat);
        assert forall|i: int| 0 <= i < store.chain(top, fuel).len() implies (#[trigger] store.chain(
            top,
            fuel,
        )[i] as int) < store.cards@.len() by {
            if i > 0 {
                assert(store.chain(top, fuel)[i] == rest[i - 1]);
            }
        }
    }
}

} // verus!
