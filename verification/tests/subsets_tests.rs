use poker_odds::cards::Rank::{Ace, Eight, Five, Four, Jack, King, Nine, Queen, Seven, Ten, Two};
use poker_odds::cards::Suit::{Clubs, Diamonds, Hearts, Spades};
use poker_odds::cards::{card, Card};
use poker_odds::hand::Hand;
use poker_odds::sorting::sort_descending;
use poker_odds::subsets::AllFiveCardSubsets;

fn eight_cards() -> [Card; 8] {
    [
        card(Ace, Spades),
        card(King, Hearts),
        card(Queen, Clubs),
        card(Jack, Diamonds),
        card(Nine, Spades),
        card(Seven, Hearts),
        card(Four, Clubs),
        card(Two, Diamonds),
    ]
}

fn all_subsets(cards: &[Card]) -> Vec<[Card; 5]> {
    let mut subsets = AllFiveCardSubsets::create(cards);
    let mut found = Vec::new();
    loop {
        match subsets.next() {
            Some(five) => found.push(five),
            None => break,
        }
        assert!(found.len() <= 100);
    }
    // Once over, the walk stays over.
    assert!(subsets.next().is_none());
    assert!(subsets.next().is_none());
    found
}

fn is_picked_in_order(five: &[Card; 5], cards: &[Card]) -> bool {
    let mut at = 0;
    for one in five.iter() {
        while at < cards.len() && cards[at] != *one {
            at += 1;
        }
        if at == cards.len() {
            return false;
        }
        at += 1;
    }
    true
}

fn check_count(k: usize, expected: usize) {
    let cards = eight_cards();
    let found = all_subsets(&cards[0..k]);
    assert_eq!(found.len(), expected);
    for i in 0..found.len() {
        assert!(is_picked_in_order(&found[i], &cards[0..k]));
        for j in 0..i {
            assert_ne!(found[i], found[j]);
        }
    }
}

#[test]
fn five_cards_have_one_subset() {
    let cards = eight_cards();
    let found = all_subsets(&cards[0..5]);
    assert_eq!(found.len(), 1);
    assert_eq!(found[0], [cards[0], cards[1], cards[2], cards[3], cards[4]]);
}

#[test]
fn six_cards_have_six_subsets() {
    check_count(6, 6);
}

#[test]
fn seven_cards_have_twenty_one_subsets() {
    check_count(7, 21);
}

#[test]
fn eight_cards_have_fifty_six_subsets() {
    check_count(8, 56);
}

#[test]
fn subsets_come_in_the_order_of_their_bit_patterns() {
    let c = eight_cards();
    let found = all_subsets(&c[0..7]);
    // Flags, lowest first: 1111100, 1111010, 1110110, 1101110, 1011110, 0111110, 1111001, ...
    assert_eq!(found[0], [c[0], c[1], c[2], c[3], c[4]]);
    assert_eq!(found[1], [c[0], c[1], c[2], c[3], c[5]]);
    assert_eq!(found[2], [c[0], c[1], c[2], c[4], c[5]]);
    assert_eq!(found[3], [c[0], c[1], c[3], c[4], c[5]]);
    assert_eq!(found[4], [c[0], c[2], c[3], c[4], c[5]]);
    assert_eq!(found[5], [c[1], c[2], c[3], c[4], c[5]]);
    assert_eq!(found[6], [c[0], c[1], c[2], c[3], c[6]]);
    assert_eq!(found[20], [c[2], c[3], c[4], c[5], c[6]]);
}

#[test]
fn sorting_puts_high_cards_first() {
    let cards = [
        card(Four, Clubs),
        card(Ace, Hearts),
        card(Ten, Spades),
        card(Ace, Spades),
        card(Two, Diamonds),
        card(Ten, Diamonds),
    ];
    let sorted = sort_descending(&cards);
    assert_eq!(
        sorted,
        vec![
            card(Ace, Hearts),
            card(Ace, Spades),
            card(Ten, Diamonds),
            card(Ten, Spades),
            card(Four, Clubs),
            card(Two, Diamonds),
        ]
    );
    assert_eq!(sort_descending(&[]), Vec::<Card>::new());
}

#[test]
fn best_hand_of_five_is_their_hand() {
    let cards = [
        card(Four, Clubs),
        card(Ace, Hearts),
        card(Four, Spades),
        card(Ace, Spades),
        card(Four, Diamonds),
    ];
    let sorted = sort_descending(&cards);
    assert_eq!(Hand::best_hand_of(&cards), Hand::get_hand(&sorted));
    assert_eq!(Hand::best_hand_of(&sorted), Hand::get_hand(&sorted));
}

fn best_by_search(cards: &[Card]) -> Hand {
    let sorted = sort_descending(cards);
    let found = all_subsets(&sorted);
    let mut best = Hand::get_hand(&found[0]);
    for five in found.iter() {
        let hand = Hand::get_hand(five);
        if hand > best {
            best = hand;
        }
    }
    best
}

#[test]
fn best_hand_of_seven_is_the_best_of_twenty_one() {
    let hands: [[Card; 7]; 4] = [
        [card(King, Clubs), card(Queen, Spades), card(Jack, Diamonds), card(Ten, Spades), card(Nine, Spades), card(Eight, Spades), card(Four, Spades)],
        [card(Two, Clubs), card(Ace, Spades), card(Two, Diamonds), card(Ace, Diamonds), card(Two, Spades), card(Ace, Clubs), card(Two, Hearts)],
        [card(Five, Hearts), card(Ace, Hearts), card(Seven, Spades), card(Two, Hearts), card(Four, Hearts), card(Queen, Diamonds), card(Jack, Hearts)],
        [card(Nine, Hearts), card(Ten, Hearts), card(Jack, Clubs), card(Four, Diamonds), card(Eight, Spades), card(Two, Clubs), card(Seven, Diamonds)],
    ];
    for cards in hands.iter() {
        let sorted = sort_descending(cards);
        assert_eq!(all_subsets(&sorted).len(), 21);
        assert_eq!(Hand::best_hand_of(cards), best_by_search(cards));
    }
}

#[test]
fn order_of_the_cards_does_not_change_the_best_hand() {
    let cards = [card(King, Clubs), card(Queen, Spades), card(Jack, Diamonds), card(Ten, Spades), card(Nine, Spades), card(Eight, Spades), card(Four, Spades)];
    let mut turned = cards;
    turned.reverse();
    assert_eq!(Hand::best_hand_of(&cards), Hand::best_hand_of(&turned));
    let mixed = [cards[3], cards[0], cards[6], cards[1], cards[5], cards[2], cards[4]];
    assert_eq!(Hand::best_hand_of(&cards), Hand::best_hand_of(&mixed));
}
