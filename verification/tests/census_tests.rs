use poker_odds::cards::{Card, Rank, Suit};
use poker_odds::hand::{hand_to_index, Hand};
use poker_odds::sorting::sort_descending;
use poker_odds::subsets::AllFiveCardSubsets;

fn whole_deck() -> Vec<Card> {
    let deck: Vec<Card> = (0..52u8).map(Card::from_index).collect();
    sort_descending(&deck)
}

/// The category of five cards by counting equal ranks, without regard to
/// their order.
fn category_by_counting(cards: &[Card; 5]) -> u8 {
    let mut counts = [0u8; 13];
    for card in cards.iter() {
        counts[card.rank.index() as usize] += 1;
    }
    let flush = cards.iter().all(|card| card.suit == cards[0].suit);
    let distinct = counts.iter().all(|count| *count <= 1);
    let highest = (0..13).rev().find(|rank| counts[*rank] > 0).unwrap();
    let lowest = (0..13).find(|rank| counts[*rank] > 0).unwrap();
    let wheel = counts[12] == 1 && counts[0] == 1 && counts[1] == 1 && counts[2] == 1 && counts[3] == 1;
    let straight = distinct && (highest - lowest == 4 || wheel);
    let pairs = counts.iter().filter(|count| **count == 2).count();
    let threes = counts.iter().filter(|count| **count == 3).count();
    let fours = counts.iter().filter(|count| **count == 4).count();
    if flush && straight {
        8
    } else if fours == 1 {
        7
    } else if threes == 1 && pairs == 1 {
        6
    } else if flush {
        5
    } else if straight {
        4
    } else if threes == 1 {
        3
    } else if pairs == 2 {
        2
    } else if pairs == 1 {
        1
    } else {
        0
    }
}

#[test]
fn census_of_all_five_card_hands() {
    let deck = whole_deck();
    assert_eq!(deck.len(), 52);
    let mut subsets = AllFiveCardSubsets::create(&deck);
    let mut census = [0u32; 9];
    let mut hands = 0u32;
    loop {
        let five = match subsets.next() {
            Some(five) => five,
            None => break,
        };
        let hand = Hand::get_hand(&five);
        let category = hand_to_index(&hand);
        assert_eq!(category, category_by_counting(&five));
        census[category as usize] += 1;
        hands += 1;
    }
    assert_eq!(hands, 2_598_960);
    assert_eq!(
        census,
        [1_302_540, 1_098_240, 123_552, 54_912, 10_200, 5_108, 3_744, 624, 40]
    );
}

#[test]
fn hands_of_distinct_cards_repeat_no_rank() {
    let deck = whole_deck();
    // Every second card keeps all ranks and two suits.
    let half: Vec<Card> = deck.iter().step_by(2).cloned().collect();
    assert_eq!(half.len(), 26);
    let mut subsets = AllFiveCardSubsets::create(&half);
    let mut hands = 0u32;
    while let Some(five) = subsets.next() {
        hands += 1;
        match Hand::get_hand(&five) {
            Hand::HiCard(hand) => assert!(falls(&hand.ranks)),
            Hand::Pair(hand) => {
                assert!(falls(&hand.kickers) && !hand.kickers.contains(&hand.rank))
            }
            Hand::TwoPair(hand) => {
                assert!(hand.hi_rank > hand.lo_rank);
                assert!(hand.kicker != hand.hi_rank && hand.kicker != hand.lo_rank);
            }
            Hand::Trips(hand) => {
                assert!(falls(&hand.kickers) && !hand.kickers.contains(&hand.rank))
            }
            Hand::Straight(hand) => assert!(hand.hi_rank >= Rank::Five),
            Hand::Flush(hand) => assert!(falls(&hand.ranks)),
            Hand::FullHouse(hand) => assert!(hand.three_of != hand.two_of),
            Hand::Quads(hand) => assert!(hand.rank != hand.kicker),
            Hand::StraightFlush(hand) => assert!(hand.hi_rank >= Rank::Five),
        }
    }
    assert_eq!(hands, 65_780);
    assert_eq!(Suit::from(2u8), Suit::Clubs);
}

fn falls(ranks: &[Rank]) -> bool {
    ranks.windows(2).all(|pair| pair[0] > pair[1])
}
