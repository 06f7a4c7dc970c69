use poker_odds::cards::{card, Card, Rank, Suit};
use poker_odds::cards::Rank::{
    Ace, Eight, Five, Four, Jack, King, Nine, Queen, Seven, Six, Ten, Three, Two,
};
use std::cmp::Ordering;

#[test]
fn cmp_whole_deck() {
    let ordered_ranks = [
        Two, Three, Four, Five, Six, Seven, Eight, Nine, Ten, Jack, Queen, King, Ace,
    ];

    for i in 0..12 {
        assert!(ordered_ranks[i] < ordered_ranks[i + 1]);
        assert!(ordered_ranks[i] == ordered_ranks[i]);
    }

    for rank1 in ordered_ranks.iter() {
        for rank2 in ordered_ranks.iter() {
            // Two cards of the same rank may not be equal.
            if rank1 == rank2 {
                continue;
            }
            cmp_two_ranks(*rank1, *rank2, rank1.cmp(rank2))
        }
    }
}

fn cmp_two_ranks(rank1: Rank, rank2: Rank, expected_ord: Ordering) {
    assert_eq!(rank1.partial_cmp(&rank2), Some(expected_ord));
    for card1 in all_cards_of_rank(rank1).iter() {
        for card2 in all_cards_of_rank(rank2).iter() {
            let actual_ord = card1.cmp(card2);
            if actual_ord != expected_ord {
                panic!(
                    "{:?} {:?} {:?}, but expected {:?}",
                    card1, actual_ord, card2, expected_ord
                )
            }
            assert_eq!(card1.partial_cmp(card2), Some(expected_ord));
        }
    }
}

fn all_cards_of_rank(rank: Rank) -> [Card; 4] {
    [
        Card { rank: rank, suit: Suit::Spades },
        Card { rank: rank, suit: Suit::Hearts },
        Card { rank: rank, suit: Suit::Diamonds },
        Card { rank: rank, suit: Suit::Clubs },
    ]
}

#[test]
fn all_ordered_lists_ranks_weakest_first() {
    let ranks = Rank::all_ordered();
    assert_eq!(ranks.len(), 13);
    assert_eq!(ranks[0], Two);
    assert_eq!(ranks[3], Five);
    assert_eq!(ranks[12], Ace);
    for i in 0..13 {
        assert_eq!(ranks[i].index() as usize, i);
    }
}

#[test]
fn rank_and_suit_from_numbers_wrap_around() {
    assert_eq!(Rank::from(0u8), Two);
    assert_eq!(Rank::from(12u8), Ace);
    assert_eq!(Rank::from(13u8), Two);
    assert_eq!(Rank::from(27u8), Three);
    assert_eq!(Suit::from(0u8), Suit::Spades);
    assert_eq!(Suit::from(1u8), Suit::Hearts);
    assert_eq!(Suit::from(2u8), Suit::Clubs);
    assert_eq!(Suit::from(3u8), Suit::Diamonds);
    assert_eq!(Suit::from(6u8), Suit::Clubs);
}

#[test]
fn card_codes_are_dense_and_distinct() {
    assert_eq!(card(Two, Suit::Spades).index(), 0);
    assert_eq!(card(Ace, Suit::Spades).index(), 12);
    assert_eq!(card(Two, Suit::Hearts).index(), 13);
    assert_eq!(card(Queen, Suit::Clubs).index(), 36);
    assert_eq!(card(Ace, Suit::Diamonds).index(), 51);
    let code: u8 = card(King, Suit::Hearts).into();
    assert_eq!(code, 24);

    let mut seen = [false; 52];
    for rank in Rank::all_ordered().iter() {
        for suit in [Suit::Spades, Suit::Hearts, Suit::Clubs, Suit::Diamonds].iter() {
            let one = card(*rank, *suit);
            let code = one.index();
            assert!(code < 52);
            assert!(!seen[code as usize]);
            seen[code as usize] = true;
            assert_eq!(Card::from_index(code), one);
        }
    }
    assert_eq!(Card::from_index(52), card(Two, Suit::Spades));
    assert_eq!(Card::from_index(64), card(Ace, Suit::Spades));
}

#[test]
fn cards_order_by_rank_then_suit() {
    assert!(card(Two, Suit::Diamonds) < card(Three, Suit::Spades));
    assert!(card(Ace, Suit::Spades) < card(Ace, Suit::Hearts));
    assert!(card(Ace, Suit::Hearts) < card(Ace, Suit::Clubs));
    assert!(card(Ace, Suit::Clubs) < card(Ace, Suit::Diamonds));
    assert_eq!(
        card(Nine, Suit::Clubs).partial_cmp(&card(Nine, Suit::Clubs)),
        Some(Ordering::Equal)
    );
    assert_eq!(card(Two, Suit::Spades).sort_key(), 0);
    assert_eq!(card(Two, Suit::Diamonds).sort_key(), 3);
    assert_eq!(card(Ace, Suit::Diamonds).sort_key(), 51);
    assert_eq!(Suit::Hearts.partial_cmp(&Suit::Clubs), Some(Ordering::Less));
}
