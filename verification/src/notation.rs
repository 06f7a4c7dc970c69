//! Reading cards from text.
//!
//! A card is written as two characters, rank then suit: `As` is the ace of
//! spades, `Td` the ten of diamonds. Cards follow one another without a
//! separator. Letters may be in either case.

use crate::cards::{Card, Rank, Suit};
use vstd::prelude::*;
use vstd::string::StrSliceExecFns;

verus! {

/// Why a text could not be read as cards.
#[derive(Clone, Copy, Debug, PartialEq, Eq, Structural)]
pub enum CardsError {
    /// The text has an odd number of characters.
    OddLength,
    /// The character at this position names no rank.
    BadRank { position: usize },
    /// The character at this position names no suit.
    BadSuit { position: usize },
}

/// The rank that a character names, if any.
pub open spec fn rank_of_char(rank_char: char) -> Option<Rank> {
    if rank_char == 'A' || rank_char == 'a' {
        Some(Rank::Ace)
    } else if rank_char == 'K' || rank_char == 'k' {
        Some(Rank::King)
    } else if rank_char == 'Q' || rank_char == 'q' {
        Some(Rank::Queen)
    } else if rank_char == 'J' || rank_char == 'j' {
        Some(Rank::Jack)
    } else if rank_char == 'T' || rank_char == 't' {
        Some(Rank::Ten)
    } else if rank_char == '9' {
        Some(Rank::Nine)
    } else if rank_char == '8' {
        Some(Rank::Eight)
    } else if rank_char == '7' {
        Some(Rank::Seven)
    } else if rank_char == '6' {
        Some(Rank::Six)
    } else if rank_char == '5' {
        Some(Rank::Five)
    } else if rank_char == '4' {
        Some(Rank::Four)
    } else if rank_char == '3' {
        Some(Rank::Three)
    } else if rank_char == '2' {
        Some(Rank::Two)
    } else {
        None
    }
}

/// The suit that a character names, if any.
pub open spec fn suit_of_char(suit_char: char) -> Option<Suit> {
    if suit_char == 'S' || suit_char == 's' {
        Some(Suit::Spades)
    } else if suit_char == 'H' || suit_char == 'h' {
        Some(Suit::Hearts)
    } else if suit_char == 'C' || suit_char == 'c' {
        Some(Suit::Clubs)
    } else if suit_char == 'D' || suit_char == 'd' {
        Some(Suit::Diamonds)
    } else {
        None
    }
}

/// The card that a rank character and a suit character spell, or what is
/// wrong with them; the rank is looked at first. `position` is where the
/// rank character stands.
pub open spec fn spelled(rank_char: char, suit_char: char, position: int) -> Result<
    Card,
    CardsError,
> {
    match rank_of_char(rank_char) {
        None => Err(CardsError::BadRank { position: position as usize }),
        Some(rank) => match suit_of_char(suit_char) {
            None => Err(CardsError::BadSuit { position: (position + 1) as usize }),
            Some(suit) => Ok(Card { rank, suit }),
        },
    }
}

/// The `k`-th card of a text, or what is wrong with it.
pub open spec fn card_at(chars: Seq<char>, k: int) -> Result<Card, CardsError> {
    spelled(chars[2 * k], chars[2 * k + 1], 2 * k)
}

/// What reading a text gives: its cards in order, or the first thing that
/// is wrong with it. An odd length is found before anything else.
pub open spec fn reads_as(chars: Seq<char>, result: Result<Seq<Card>, CardsError>) -> bool {
    if chars.len() % 2 != 0 {
        result == Err::<Seq<Card>, CardsError>(CardsError::OddLength)
    } else {
        match result {
            Ok(cards) => {
                &&& cards.len() == chars.len() / 2
                &&& forall|k: int|
                    0 <= k < cards.len() ==> #[trigger] card_at(chars, k) == Ok::<Card, CardsError>(
                        cards[k],
                    )
            },
            Err(error) => exists|k: int|
                0 <= k < chars.len() / 2 && #[trigger] card_at(chars, k) == Err::<
                    Card,
                    CardsError,
                >(error) && forall|j: int| 0 <= j < k ==> (#[trigger] card_at(chars, j)) is Ok,
        }
    }
}

/// Reads a rank.
pub fn parse_rank(rank_char: char) -> (rank: Option<Rank>)
    ensures
        rank == rank_of_char(rank_char),
{
    let rank = match rank_char {
        'A' | 'a' => Rank::Ace,
        'K' | 'k' => Rank::King,
        'Q' | 'q' => Rank::Queen,
        'J' | 'j' => Rank::Jack,
        'T' | 't' => Rank::Ten,
        '9' => Rank::Nine,
        '8' => Rank::Eight,
        '7' => Rank::Seven,
        '6' => Rank::Six,
        '5' => Rank::Five,
        '4' => Rank::Four,
        '3' => Rank::Three,
        '2' => Rank::Two,
        _ => return None,
    };
    Some(rank)
}

/// Reads a suit.
pub fn parse_suit(suit_char: char) -> (suit: Option<Suit>)
    ensures
        suit == suit_of_char(suit_char),
{
    let suit = match suit_char {
        'S' | 's' => Suit::Spades,
        'H' | 'h' => Suit::Hearts,
        'C' | 'c' => Suit::Clubs,
        'D' | 'd' => Suit::Diamonds,
        _ => return None,
    };
    Some(suit)
}

/// Reads one card from its two characters.
pub fn parse_card(rank_char: char, suit_char: char, position: usize) -> (result: Result<
    Card,
    CardsError,
>)
    requires
        position < usize::MAX,
    ensures
        result == spelled(rank_char, suit_char, position as int),
{
    let rank = match parse_rank(rank_char) {
        Some(rank) => rank,
        None => {
            return Err(CardsError::BadRank { position });
        },
    };
    let suit = match parse_suit(suit_char) {
        Some(suit) => suit,
        None => {
            return Err(CardsError::BadSuit { position: position + 1 });
        },
    };
    Ok(Card { rank, suit })
}

/// Reads a row of cards.
pub fn parse_cards_string(cards_string: &str) -> (result: Result<Vec<Card>, CardsError>)
    ensures
        reads_as(
            cards_string@,
            match result {
                Ok(cards) => Ok(cards@),
                Err(error) => Err(error),
            },
        ),
{
    let length = cards_string.unicode_len();
    if length % 2 != 0 {
        return Err(CardsError::OddLength);
    }
    let num_cards = length / 2;
    let mut cards: Vec<Card> = Vec::with_capacity(num_cards);
    let mut card_index: usize = 0;
    while card_index < num_cards
        invariant
            card_index <= num_cards,
            length == cards_string@.len(),
            length % 2 == 0,
            num_cards == length / 2,
            cards@.len() == card_index,
            forall|k: int|
                0 <= k < card_index ==> #[trigger] card_at(cards_string@, k) == Ok::<
                    Card,
                    CardsError,
                >(cards@[k]),
        decreases num_cards - card_index,
    {
        let rank_index = card_index * 2;
        let suit_index = rank_index + 1;
        let rank_char = cards_string.get_char(rank_index);
        let suit_char = cards_string.get_char(suit_index);
        let ghost before = cards@;
        match parse_card(rank_char, suit_char, rank_index) {
            Ok(card) => {
                cards.push(card);
                assert forall|k: int| 0 <= k < card_index + 1 implies #[trigger] card_at(
                    cards_string@,
                    k,
                ) == Ok::<Card, CardsError>(cards@[k]) by {
                    if k < card_index {
                        assert(card_at(cards_string@, k) == Ok::<Card, CardsError>(before[k]));
                    }
                }
            },
            Err(error) => {
                assert(card_at(cards_string@, card_index as int) == Err::<Card, CardsError>(error));
                return Err(error);
            },
        }
        card_index += 1;
    }
    Ok(cards)
}

} // verus!
