//! Playing cards: suits, ranks, and the card order.
//!
//! A card is a rank and a suit. Cards are totally ordered by rank first and
//! suit second; the suit order carries no meaning for hand strength and only
//! makes the sorted form of a set of cards unique. Every card also has a
//! dense code in `0..52`, used for membership tests.

use core::cmp::Ordering;
use vstd::prelude::*;
use vstd::std_specs::cmp::PartialOrdSpecImpl;
use vstd::std_specs::convert::FromSpecImpl;

verus! {

/// Number of distinct suits.
pub const NUM_SUITS: u8 = 4;

/// Number of distinct ranks.
pub const NUM_RANKS: u8 = 13;

/// Number of distinct cards.
pub const DECK_SIZE: u8 = 52;

/// The four suits. Their order only fixes a canonical card order.
#[derive(Clone, Copy, Debug, PartialEq, Eq, Structural, Ord, Hash)]
pub enum Suit {
    Spades,
    Hearts,
    Clubs,
    Diamonds,
}

/// The thirteen ranks, ace high.
#[derive(Clone, Copy, Debug, PartialEq, Eq, Structural, Ord, Hash)]
pub enum Rank {
    Two,
    Three,
    Four,
    Five,
    Six,
    Seven,
    Eight,
    Nine,
    Ten,
    Jack,
    Queen,
    King,
    Ace,
}

/// A playing card.
#[derive(Clone, Copy, Debug, PartialEq, Eq, Structural, Ord, Hash)]
pub struct Card {
    pub rank: Rank,
    pub suit: Suit,
}

/// Three-way comparison of two integers.
pub open spec fn int_order(a: int, b: int) -> Ordering {
    if a < b {
        Ordering::Less
    } else if a == b {
        Ordering::Equal
    } else {
        Ordering::Greater
    }
}

/// Three-way comparison of two small numbers.
pub fn order_u8(a: u8, b: u8) -> (r: Ordering)
    ensures
        a < b ==> r == Ordering::Less,
        a == b ==> r == Ordering::Equal,
        a > b ==> r == Ordering::Greater,
{
    if a < b {
        Ordering::Less
    } else if a == b {
        Ordering::Equal
    } else {
        Ordering::Greater
    }
}

impl Suit {
    /// Position of the suit in declaration order, `0..4`.
    pub open spec fn value(self) -> int {
        match self {
            Suit::Spades => 0,
            Suit::Hearts => 1,
            Suit::Clubs => 2,
            Suit::Diamonds => 3,
        }
    }

    /// The suit at position `i`; positions wrap around modulo four.
    pub open spec fn from_value(i: int) -> Suit {
        let m = i % 4;
        if m == 0 {
            Suit::Spades
        } else if m == 1 {
            Suit::Hearts
        } else if m == 2 {
            Suit::Clubs
        } else {
            Suit::Diamonds
        }
    }

    /// Position of the suit in declaration order.
    pub fn index(self) -> (i: u8)
        ensures
            i == self.value(),
            i < NUM_SUITS,
    {
        match self {
            Suit::Spades => 0,
            Suit::Hearts => 1,
            Suit::Clubs => 2,
            Suit::Diamonds => 3,
        }
    }

    /// `value` and `from_value` are inverse on `0..4`.
    pub proof fn lemma_value_round_trip(self)
        ensures
            0 <= self.value() < 4,
            Suit::from_value(self.value()) == self,
    {
    }

    /// `from_value` lands on the position it was given, modulo four.
    pub proof fn lemma_from_value(i: int)
        ensures
            Suit::from_value(i).value() == i % 4,
    {
    }
}

impl From<u8> for Suit {
    fn from(index: u8) -> (s: Suit) {
        let m: u8 = index % 4;
        if m == 0 {
            Suit::Spades
        } else if m == 1 {
            Suit::Hearts
        } else if m == 2 {
            Suit::Clubs
        } else {
            Suit::Diamonds
        }
    }
}

impl FromSpecImpl<u8> for Suit {
    open spec fn obeys_from_spec() -> bool {
        true
    }

    open spec fn from_spec(index: u8) -> Suit {
        Suit::from_value(index as int)
    }
}

impl PartialOrd for Suit {
    fn partial_cmp(&self, other: &Suit) -> (r: Option<Ordering>) {
        Some(order_u8(self.index(), other.index()))
    }
}

impl PartialOrdSpecImpl for Suit {
    open spec fn obeys_partial_cmp_spec() -> bool {
        true
    }

    open spec fn partial_cmp_spec(&self, other: &Suit) -> Option<Ordering> {
        Some(int_order(self.value(), other.value()))
    }
}

impl Rank {
    /// Position of the rank in strength order: `Two` is 0, `Ace` is 12.
    pub open spec fn value(self) -> int {
        match self {
            Rank::Two => 0,
            Rank::Three => 1,
            Rank::Four => 2,
            Rank::Five => 3,
            Rank::Six => 4,
            Rank::Seven => 5,
            Rank::Eight => 6,
            Rank::Nine => 7,
            Rank::Ten => 8,
            Rank::Jack => 9,
            Rank::Queen => 10,
            Rank::King => 11,
            Rank::Ace => 12,
        }
    }

    /// The rank at position `i`; positions wrap around modulo thirteen.
    pub open spec fn from_value(i: int) -> Rank {
        let m = i % 13;
        if m == 0 {
            Rank::Two
        } else if m == 1 {
            Rank::Three
        } else if m == 2 {
            Rank::Four
        } else if m == 3 {
            Rank::Five
        } else if m == 4 {
            Rank::Six
        } else if m == 5 {
            Rank::Seven
        } else if m == 6 {
            Rank::Eight
        } else if m == 7 {
            Rank::Nine
        } else if m == 8 {
            Rank::Ten
        } else if m == 9 {
            Rank::Jack
        } else if m == 10 {
            Rank::Queen
        } else if m == 11 {
            Rank::King
        } else {
            Rank::Ace
        }
    }

    /// Position of the rank in strength order.
    pub fn index(self) -> (i: u8)
        ensures
            i == self.value(),
            i < NUM_RANKS,
    {
        match self {
            Rank::Two => 0,
            Rank::Three => 1,
            Rank::Four => 2,
            Rank::Five => 3,
            Rank::Six => 4,
            Rank::Seven => 5,
            Rank::Eight => 6,
            Rank::Nine => 7,
            Rank::Ten => 8,
            Rank::Jack => 9,
            Rank::Queen => 10,
            Rank::King => 11,
            Rank::Ace => 12,
        }
    }

    /// All ranks, weakest first.
    pub fn all_ordered() -> (ranks: [Rank; 13])
        ensures
            forall|i: int| 0 <= i < 13 ==> (#[trigger] ranks[i]).value() == i,
    {
        [
            Rank::Two,
            Rank::Three,
            Rank::Four,
            Rank::Five,
            Rank::Six,
            Rank::Seven,
            Rank::Eight,
            Rank::Nine,
            Rank::Ten,
            Rank::Jack,
            Rank::Queen,
            Rank::King,
            Rank::Ace,
        ]
    }

    /// `value` and `from_value` are inverse on `0..13`, so ranks with the
    /// same position are the same rank.
    pub proof fn lemma_value_round_trip(self)
        ensures
            0 <= self.value() < 13,
            Rank::from_value(self.value()) == self,
    {
    }

    /// `from_value` lands on the position it was given, modulo thirteen.
    pub proof fn lemma_from_value(i: int)
        ensures
            Rank::from_value(i).value() == i % 13,
    {
    }

    /// Two ranks are equal exactly when their positions are.
    pub proof fn lemma_value_injective(a: Rank, b: Rank)
        ensures
            a.value() == b.value() <==> a == b,
    {
    }
}

impl From<u8> for Rank {
    fn from(index: u8) -> (r: Rank) {
        let m: u8 = index % 13;
        if m == 0 {
            Rank::Two
        } else if m == 1 {
            Rank::Three
        } else if m == 2 {
            Rank::Four
        } else if m == 3 {
            Rank::Five
        } else if m == 4 {
            Rank::Six
        } else if m == 5 {
            Rank::Seven
        } else if m == 6 {
            Rank::Eight
        } else if m == 7 {
            Rank::Nine
        } else if m == 8 {
            Rank::Ten
        } else if m == 9 {
            Rank::Jack
        } else if m == 10 {
            Rank::Queen
        } else if m == 11 {
            Rank::King
        } else {
            Rank::Ace
        }
    }
}

impl FromSpecImpl<u8> for Rank {
    open spec fn obeys_from_spec() -> bool {
        true
    }

    open spec fn from_spec(index: u8) -> Rank {
        Rank::from_value(index as int)
    }
}

impl PartialOrd for Rank {
    fn partial_cmp(&self, other: &Rank) -> (r: Option<Ordering>) {
        Some(order_u8(self.index(), other.index()))
    }
}

impl PartialOrdSpecImpl for Rank {
    open spec fn obeys_partial_cmp_spec() -> bool {
        true
    }

    open spec fn partial_cmp_spec(&self, other: &Rank) -> Option<Ordering> {
        Some(int_order(self.value(), other.value()))
    }
}

impl Card {
    /// The dense code of the card, `0..52`: thirteen codes per suit.
    pub open spec fn code(self) -> int {
        self.suit.value() * 13 + self.rank.value()
    }

    /// The card with the given code; codes wrap around modulo 52.
    pub open spec fn from_code(code: int) -> Card {
        Card { rank: Rank::from_value(code % 52 % 13), suit: Suit::from_value(code % 52 / 13) }
    }

    /// The place of the card in the card order: rank first, suit second.
    pub open spec fn order_key(self) -> int {
        self.rank.value() * 4 + self.suit.value()
    }

    /// The dense code of the card.
    pub fn index(self) -> (c: u8)
        ensures
            c == self.code(),
            c < DECK_SIZE,
    {
        self.suit.index() * 13 + self.rank.index()
    }

    /// The card with the given code; codes wrap around modulo 52.
    pub fn from_index(code: u8) -> (c: Card)
        ensures
            c == Card::from_code(code as int),
            code < DECK_SIZE ==> c.code() == code,
    {
        let m: u8 = code % 52;
        let c = Card { rank: Rank::from(m % 13), suit: Suit::from(m / 13) };
        proof {
            Rank::lemma_from_value((m % 13) as int);
            Suit::lemma_from_value((m / 13) as int);
        }
        c
    }

    /// Codes identify cards: `code` and `from_code` are inverse on `0..52`.
    pub proof fn lemma_code_round_trip(self)
        ensures
            0 <= self.code() < 52,
            Card::from_code(self.code()) == self,
    {
        self.rank.lemma_value_round_trip();
        self.suit.lemma_value_round_trip();
    }

    /// Two cards are equal exactly when their codes are.
    pub proof fn lemma_code_injective(a: Card, b: Card)
        ensures
            a.code() == b.code() <==> a == b,
    {
        a.lemma_code_round_trip();
        b.lemma_code_round_trip();
    }

    /// Two cards are equal exactly when they hold the same place in the
    /// card order.
    pub proof fn lemma_order_key_injective(a: Card, b: Card)
        ensures
            a.order_key() == b.order_key() <==> a == b,
            0 <= a.order_key() < 52,
    {
        a.rank.lemma_value_round_trip();
        a.suit.lemma_value_round_trip();
        b.rank.lemma_value_round_trip();
        b.suit.lemma_value_round_trip();
    }

    /// The place of the card in the card order.
    pub fn sort_key(self) -> (k: u8)
        ensures
            k == self.order_key(),
            k < DECK_SIZE,
    {
        self.rank.index() * 4 + self.suit.index()
    }
}

impl From<Card> for u8 {
    fn from(card: Card) -> (c: u8) {
        card.index()
    }
}

impl FromSpecImpl<Card> for u8 {
    open spec fn obeys_from_spec() -> bool {
        true
    }

    open spec fn from_spec(card: Card) -> u8 {
        card.code() as u8
    }
}

impl PartialOrd for Card {
    fn partial_cmp(&self, other: &Card) -> (r: Option<Ordering>) {
        Some(order_u8(self.sort_key(), other.sort_key()))
    }
}

impl PartialOrdSpecImpl for Card {
    open spec fn obeys_partial_cmp_spec() -> bool {
        true
    }

    open spec fn partial_cmp_spec(&self, other: &Card) -> Option<Ordering> {
        Some(int_order(self.order_key(), other.order_key()))
    }
}

/// Builds a card from its rank and suit.
pub fn card(rank: Rank, suit: Suit) -> (c: Card)
    ensures
        c == (Card { rank, suit }),
{
    Card { rank, suit }
}

} // verus!
