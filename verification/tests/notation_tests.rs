use poker_odds::cards::Rank::{Ace, Eight, Five, Four, Jack, King, Nine, Queen, Seven, Six, Ten, Three, Two};
use poker_odds::cards::Suit::{Clubs, Diamonds, Hearts, Spades};
use poker_odds::cards::card;
use poker_odds::notation::{parse_card, parse_cards_string, parse_rank, parse_suit, CardsError};

#[test]
fn ranks_are_read_in_either_case() {
    let upper = ['2', '3', '4', '5', '6', '7', '8', '9', 'T', 'J', 'Q', 'K', 'A'];
    let lower = ['2', '3', '4', '5', '6', '7', '8', '9', 't', 'j', 'q', 'k', 'a'];
    let ranks = [Two, Three, Four, Five, Six, Seven, Eight, Nine, Ten, Jack, Queen, King, Ace];
    for i in 0..13 {
        assert_eq!(parse_rank(upper[i]), Some(ranks[i]));
        assert_eq!(parse_rank(lower[i]), Some(ranks[i]));
    }
    assert_eq!(parse_rank('1'), None);
    assert_eq!(parse_rank('0'), None);
    assert_eq!(parse_rank('s'), None);
    assert_eq!(parse_rank(' '), None);
}

#[test]
fn suits_are_read_in_either_case() {
    assert_eq!(parse_suit('S'), Some(Spades));
    assert_eq!(parse_suit('s'), Some(Spades));
    assert_eq!(parse_suit('H'), Some(Hearts));
    assert_eq!(parse_suit('h'), Some(Hearts));
    assert_eq!(parse_suit('C'), Some(Clubs));
    assert_eq!(parse_suit('c'), Some(Clubs));
    assert_eq!(parse_suit('D'), Some(Diamonds));
    assert_eq!(parse_suit('d'), Some(Diamonds));
    assert_eq!(parse_suit('A'), None);
    assert_eq!(parse_suit('x'), None);
}

#[test]
fn cards_are_read_two_characters_at_a_time() {
    assert_eq!(parse_cards_string(""), Ok(vec![]));
    assert_eq!(parse_cards_string("As"), Ok(vec![card(Ace, Spades)]));
    assert_eq!(
        parse_cards_string("AsKh"),
        Ok(vec![card(Ace, Spades), card(King, Hearts)])
    );
    assert_eq!(
        parse_cards_string("tD9c2H"),
        Ok(vec![card(Ten, Diamonds), card(Nine, Clubs), card(Two, Hearts)])
    );
    assert_eq!(parse_card('Q', 'd', 4), Ok(card(Queen, Diamonds)));
}

#[test]
fn bad_text_is_turned_down_with_the_reason() {
    assert_eq!(parse_cards_string("A"), Err(CardsError::OddLength));
    assert_eq!(parse_cards_string("AsK"), Err(CardsError::OddLength));
    assert_eq!(parse_cards_string("XsK"), Err(CardsError::OddLength));
    assert_eq!(parse_cards_string("Xs"), Err(CardsError::BadRank { position: 0 }));
    assert_eq!(parse_cards_string("AsXh"), Err(CardsError::BadRank { position: 2 }));
    assert_eq!(parse_cards_string("AsKx"), Err(CardsError::BadSuit { position: 3 }));
    assert_eq!(parse_cards_string("Ax"), Err(CardsError::BadSuit { position: 1 }));
    assert_eq!(parse_cards_string("xxAs"), Err(CardsError::BadRank { position: 0 }));
    assert_eq!(parse_cards_string("AsKhQ\u{e9}"), Err(CardsError::BadSuit { position: 5 }));
    assert_eq!(parse_cards_string("sA"), Err(CardsError::BadRank { position: 0 }));
    assert_eq!(parse_card('1', 'x', 6), Err(CardsError::BadRank { position: 6 }));
    assert_eq!(parse_card('9', 'x', 6), Err(CardsError::BadSuit { position: 7 }));
}
