//! Recognizing the category of five cards.
//!
//! Each recognizer looks at five cards by position and says whether they form
//! one category, and with which tie-break ranks. The cards are meant to be
//! sorted by descending rank, so that cards of one rank stand side by side.
//! A recognizer does not rule out the stronger categories: `Hand::get_hand`
//! asks them strongest first and takes the first that answers.

use crate::arrangement::lemma_classify_is_well_formed;
use crate::cards::{Card, Rank, Suit};
use crate::counts::{counted_category, lemma_category_by_counts};
use crate::hand::{
    FlushStr, FullHouseStr, Hand, HiCardStr, PairStr, QuadsStr, StraightFlushStr, StraightStr,
    TripsStr, TwoPairStr,
};
use vstd::prelude::*;

verus! {

/// Five cards in descending order of rank.
pub open spec fn sorted_five(cards: Seq<Card>) -> bool {
    &&& cards.len() == 5
    &&& cards[0].rank.value() >= cards[1].rank.value()
    &&& cards[1].rank.value() >= cards[2].rank.value()
    &&& cards[2].rank.value() >= cards[3].rank.value()
    &&& cards[3].rank.value() >= cards[4].rank.value()
}

/// All five cards have one rank, which no deck allows.
pub open spec fn five_alike(cards: Seq<Card>) -> bool {
    &&& cards[0].rank == cards[1].rank
    &&& cards[1].rank == cards[2].rank
    &&& cards[2].rank == cards[3].rank
    &&& cards[3].rank == cards[4].rank
}

/// The suit that all the cards share, if they share one.
pub open spec fn flush_suit(cards: Seq<Card>) -> Option<Suit> {
    if forall|i: int| 0 <= i < cards.len() ==> (#[trigger] cards[i]).suit == cards[0].suit {
        Some(cards[0].suit)
    } else {
        None
    }
}

/// Ace, five, four, three, two: the one straight in which the ace is low.
pub open spec fn is_wheel(cards: Seq<Card>) -> bool {
    &&& cards[0].rank == Rank::Ace
    &&& cards[1].rank == Rank::Five
    &&& cards[2].rank == Rank::Four
    &&& cards[3].rank == Rank::Three
    &&& cards[4].rank == Rank::Two
}

/// The card at position `i` is one rank below the card before it.
pub open spec fn steps_down(cards: Seq<Card>, i: int) -> bool {
    cards[i].rank.value() + 1 == cards[i - 1].rank.value()
}

/// From position `from` on, each card is one rank below the card before it.
pub open spec fn is_run(cards: Seq<Card>, from: int) -> bool {
    forall|i: int| from <= i < cards.len() ==> #[trigger] steps_down(cards, i)
}

/// The straight that the five cards form, if any. The wheel ends on the
/// five.
pub open spec fn straight_of(cards: Seq<Card>) -> Option<StraightStr> {
    if is_wheel(cards) {
        Some(StraightStr { hi_rank: Rank::Five })
    } else if is_run(cards, 1) {
        Some(StraightStr { hi_rank: cards[0].rank })
    } else {
        None
    }
}

/// The five ranks in the order of the cards.
pub open spec fn hi_card_of(cards: Seq<Card>) -> HiCardStr {
    HiCardStr {
        ranks: [cards[0].rank, cards[1].rank, cards[2].rank, cards[3].rank, cards[4].rank],
    }
}

/// The flush that the five cards form, if any.
pub open spec fn flush_of(cards: Seq<Card>) -> Option<FlushStr> {
    if flush_suit(cards) is Some {
        Some(FlushStr { ranks: hi_card_of(cards).ranks })
    } else {
        None
    }
}

/// The straight flush that the five cards form, if any.
pub open spec fn straight_flush_of(cards: Seq<Card>) -> Option<StraightFlushStr> {
    if flush_suit(cards) is Some && straight_of(cards) is Some {
        Some(StraightFlushStr { hi_rank: straight_of(cards)->0.hi_rank })
    } else {
        None
    }
}

/// Four cards of one rank at either end and a fifth of another rank.
pub open spec fn quads_of(cards: Seq<Card>) -> Option<QuadsStr> {
    if cards[3].rank != cards[4].rank && cards[0].rank == cards[1].rank && cards[1].rank
        == cards[2].rank && cards[2].rank == cards[3].rank {
        Some(QuadsStr { rank: cards[0].rank, kicker: cards[4].rank })
    } else if cards[0].rank != cards[1].rank && cards[1].rank == cards[2].rank && cards[2].rank
        == cards[3].rank && cards[3].rank == cards[4].rank {
        Some(QuadsStr { rank: cards[1].rank, kicker: cards[0].rank })
    } else {
        None
    }
}

/// A pair at each end, the middle card belonging to one of them.
pub open spec fn full_house_of(cards: Seq<Card>) -> Option<FullHouseStr> {
    if cards[0].rank == cards[1].rank && cards[3].rank == cards[4].rank {
        if cards[2].rank == cards[0].rank {
            Some(FullHouseStr { three_of: cards[0].rank, two_of: cards[4].rank })
        } else if cards[2].rank == cards[4].rank {
            Some(FullHouseStr { three_of: cards[4].rank, two_of: cards[0].rank })
        } else {
            None
        }
    } else {
        None
    }
}

/// The first of the three windows of three cards whose ends have one rank;
/// the kickers are the two cards outside the window.
pub open spec fn trips_of(cards: Seq<Card>) -> Option<TripsStr> {
    if cards[0].rank == cards[2].rank {
        Some(TripsStr { rank: cards[0].rank, kickers: [cards[3].rank, cards[4].rank] })
    } else if cards[1].rank == cards[3].rank {
        Some(TripsStr { rank: cards[1].rank, kickers: [cards[0].rank, cards[4].rank] })
    } else if cards[2].rank == cards[4].rank {
        Some(TripsStr { rank: cards[2].rank, kickers: [cards[0].rank, cards[1].rank] })
    } else {
        None
    }
}

/// The start positions of the neighbouring pairs that a scan from position
/// `from - 1` finds. The scan compares each card with the one before it;
/// after a pair it skips a card, so that no card belongs to two pairs.
pub open spec fn scan_pairs(cards: Seq<Card>, from: int) -> Seq<int>
    decreases cards.len() + 1 - from,
{
    if from < 1 || from >= cards.len() {
        Seq::empty()
    } else if cards[from].rank == cards[from - 1].rank {
        seq![from - 1] + scan_pairs(cards, from + 2)
    } else {
        scan_pairs(cards, from + 1)
    }
}

/// The position that two disjoint pairs starting at `first` and `second`
/// leave free among five.
pub open spec fn free_position(first: int, second: int) -> int {
    if first != 0 {
        0
    } else if second != 2 {
        2
    } else {
        4
    }
}

/// Two disjoint neighbouring pairs, found by the scan, and the card they
/// leave free.
pub open spec fn two_pair_of(cards: Seq<Card>) -> Option<TwoPairStr> {
    let pairs = scan_pairs(cards, 1);
    if pairs.len() == 2 {
        Some(
            TwoPairStr {
                hi_rank: cards[pairs[0]].rank,
                lo_rank: cards[pairs[1]].rank,
                kicker: cards[free_position(pairs[0], pairs[1])].rank,
            },
        )
    } else {
        None
    }
}

/// How many of the first `upto` cards have the rank of the card after them.
pub open spec fn neighbour_pairs(cards: Seq<Card>, upto: int) -> int
    decreases upto,
{
    if upto <= 0 {
        0
    } else {
        neighbour_pairs(cards, upto - 1) + if cards[upto - 1].rank == cards[upto].rank {
            1int
        } else {
            0int
        }
    }
}

/// The first position from `from` on whose card has the rank of the card
/// after it; the last position if there is none.
pub open spec fn first_pair(cards: Seq<Card>, from: int) -> int
    decreases cards.len() - from,
{
    if from < 0 || from + 1 >= cards.len() {
        cards.len() - 1
    } else if cards[from].rank == cards[from + 1].rank {
        from
    } else {
        first_pair(cards, from + 1)
    }
}

/// Exactly one neighbouring pair; the kickers are the other three cards in
/// their order.
pub open spec fn pair_of(cards: Seq<Card>) -> Option<PairStr> {
    if neighbour_pairs(cards, 4) == 1 {
        let at = first_pair(cards, 0);
        let rest = cards.remove(at).remove(at);
        Some(PairStr { rank: cards[at].rank, kickers: [rest[0].rank, rest[1].rank, rest[2].rank] })
    } else {
        None
    }
}

/// The hand that five cards form: the strongest category that recognizes
/// them.
pub open spec fn classify(cards: Seq<Card>) -> Hand {
    if straight_flush_of(cards) is Some {
        Hand::StraightFlush(straight_flush_of(cards)->0)
    } else if quads_of(cards) is Some {
        Hand::Quads(quads_of(cards)->0)
    } else if full_house_of(cards) is Some {
        Hand::FullHouse(full_house_of(cards)->0)
    } else if flush_of(cards) is Some {
        Hand::Flush(flush_of(cards)->0)
    } else if straight_of(cards) is Some {
        Hand::Straight(straight_of(cards)->0)
    } else if trips_of(cards) is Some {
        Hand::Trips(trips_of(cards)->0)
    } else if two_pair_of(cards) is Some {
        Hand::TwoPair(two_pair_of(cards)->0)
    } else if pair_of(cards) is Some {
        Hand::Pair(pair_of(cards)->0)
    } else {
        Hand::HiCard(hi_card_of(cards))
    }
}

/// The suit that all the cards share, if they share one.
pub fn get_flush_suit(cards: &[Card]) -> (suit: Option<Suit>)
    requires
        cards.len() > 0,
    ensures
        suit == flush_suit(cards@),
{
    let flush_suit = cards[0].suit;
    let mut i: usize = 0;
    while i < cards.len()
        invariant
            i <= cards.len(),
            cards.len() > 0,
            flush_suit == cards[0].suit,
            forall|k: int| 0 <= k < i ==> (#[trigger] cards[k]).suit == flush_suit,
        decreases cards.len() - i,
    {
        if cards[i].suit != flush_suit {
            return None;
        }
        i += 1;
    }
    Some(flush_suit)
}

/// Recognizes a straight in one suit.
pub fn get_straight_flush(cards: &[Card]) -> (hand: Option<StraightFlushStr>)
    requires
        cards.len() == 5,
    ensures
        hand == straight_flush_of(cards@),
{
    let flush_suit = get_flush_suit(cards);
    if !flush_suit.is_some() {
        return None;
    }
    match get_straight(cards) {
        Some(straight) => Some(StraightFlushStr { hi_rank: straight.hi_rank }),
        None => None,
    }
}

/// Recognizes five cards of one suit.
pub fn get_flush(cards: &[Card]) -> (hand: Option<FlushStr>)
    requires
        cards.len() == 5,
    ensures
        hand == flush_of(cards@),
{
    let flush_suit = get_flush_suit(cards);
    if !flush_suit.is_some() {
        return None;
    }
    let hi_card = get_hi_card(cards);
    Some(FlushStr { ranks: hi_card.ranks })
}

/// Recognizes four of a kind.
pub fn get_quads(cards: &[Card]) -> (hand: Option<QuadsStr>)
    requires
        cards.len() == 5,
    ensures
        hand == quads_of(cards@),
{
    // Among sorted cards the odd one stands at an end.
    let high_kicker = cards[0].rank != cards[1].rank;
    let low_kicker = cards[3].rank != cards[4].rank;
    if (!low_kicker) && (!high_kicker) {
        return None;
    }
    let (kicker, quad_rank, quad_start_index): (Rank, Rank, usize) = if low_kicker {
        (cards[4].rank, cards[0].rank, 0)
    } else {
        (cards[0].rank, cards[1].rank, 1)
    };
    let mut i: usize = quad_start_index;
    while i < quad_start_index + 4
        invariant
            cards.len() == 5,
            quad_start_index <= 1,
            quad_start_index <= i <= quad_start_index + 4,
            low_kicker == (cards[3].rank != cards[4].rank),
            high_kicker == (cards[0].rank != cards[1].rank),
            low_kicker || high_kicker,
            low_kicker ==> quad_start_index == 0,
            !low_kicker ==> quad_start_index == 1,
            quad_rank == cards[quad_start_index as int].rank,
            forall|k: int| quad_start_index <= k < i ==> (#[trigger] cards[k]).rank == quad_rank,
        decreases quad_start_index + 4 - i,
    {
        if cards[i].rank != quad_rank {
            return None;
        }
        i += 1;
    }
    Some(QuadsStr { rank: quad_rank, kicker })
}

/// Recognizes a full house. Five cards of one rank are not accepted.
pub fn get_full_house(cards: &[Card]) -> (hand: Option<FullHouseStr>)
    requires
        cards.len() == 5,
        !five_alike(cards@),
    ensures
        hand == full_house_of(cards@),
{
    if cards[0].rank != cards[1].rank {
        return None;
    }
    if cards[3].rank != cards[4].rank {
        return None;
    }
    let high_pair_rank = cards[0].rank;
    let low_pair_rank = cards[4].rank;
    let middle_rank = cards[2].rank;
    let three_of_high = high_pair_rank == middle_rank;
    let three_of_low = low_pair_rank == middle_rank;
    if (!three_of_high) && (!three_of_low) {
        return None;
    }
    let (three_of, two_of): (Rank, Rank) = if three_of_high {
        (high_pair_rank, low_pair_rank)
    } else {
        (low_pair_rank, high_pair_rank)
    };
    Some(FullHouseStr { three_of, two_of })
}

/// Recognizes five consecutive ranks, the ace counting low before a five.
pub fn get_straight(cards: &[Card]) -> (hand: Option<StraightStr>)
    requires
        cards.len() == 5,
    ensures
        hand == straight_of(cards@),
{
    let mut wheel = false;
    let mut i: usize = 1;
    while i < 5
        invariant
            cards.len() == 5,
            1 <= i <= 5,
            wheel ==> i >= 2,
            i >= 2 ==> wheel == (cards[0].rank == Rank::Ace && cards[1].rank == Rank::Five),
            forall|k: int|
                (if wheel {
                    2int
                } else {
                    1int
                }) <= k < i ==> #[trigger] steps_down(cards@, k),
        decreases 5 - i,
    {
        let this_rank = cards[i].rank;
        let prev_rank = cards[i - 1].rank;
        if i == 1 && prev_rank == Rank::Ace && this_rank == Rank::Five {
            wheel = true;
        } else if this_rank.index() + 1 != prev_rank.index() {
            proof {
                assert(!steps_down(cards@, i as int));
                lemma_wheel_steps_down(cards@);
            }
            return None;
        }
        i += 1;
    }
    proof {
        lemma_wheel_steps_down(cards@);
    }
    if wheel {
        Some(StraightStr { hi_rank: Rank::Five })
    } else {
        Some(StraightStr { hi_rank: cards[0].rank })
    }
}

/// After an ace and a five, the cards form the wheel exactly when the last
/// three step down; and a wheel is no run from the top.
proof fn lemma_wheel_steps_down(cards: Seq<Card>)
    requires
        cards.len() == 5,
    ensures
        is_wheel(cards) <==> cards[0].rank == Rank::Ace && cards[1].rank == Rank::Five
            && steps_down(cards, 2) && steps_down(cards, 3) && steps_down(cards, 4),
        cards[0].rank == Rank::Ace && cards[1].rank == Rank::Five ==> !steps_down(cards, 1),
{
}

/// Recognizes three of a kind.
pub fn get_trips(cards: &[Card]) -> (hand: Option<TripsStr>)
    requires
        cards.len() == 5,
    ensures
        hand == trips_of(cards@),
{
    let (trip_rank, high_kicker, low_kicker): (Rank, Rank, Rank) = if cards[0].rank
        == cards[2].rank {
        (cards[0].rank, cards[3].rank, cards[4].rank)
    } else if cards[1].rank == cards[3].rank {
        (cards[1].rank, cards[0].rank, cards[4].rank)
    } else if cards[2].rank == cards[4].rank {
        (cards[2].rank, cards[0].rank, cards[1].rank)
    } else {
        return None;
    };
    let hand = TripsStr { rank: trip_rank, kickers: [high_kicker, low_kicker] };
    assert(hand.kickers =~= trips_of(cards@)->0.kickers);
    Some(hand)
}

/// A scan of five cards finds at most two pairs, and two pairs leave one
/// card free.
pub proof fn lemma_scan_pairs(cards: Seq<Card>)
    requires
        cards.len() == 5,
    ensures
        scan_pairs(cards, 1).len() <= 2,
        scan_pairs(cards, 1).len() == 2 ==> {
            let first = scan_pairs(cards, 1)[0];
            let second = scan_pairs(cards, 1)[1];
            let free = free_position(first, second);
            &&& 0 <= first && first + 2 <= second && second <= 3
            &&& 0 <= free <= 4
            &&& free != first && free != first + 1 && free != second && free != second + 1
        },
{
    reveal_with_fuel(scan_pairs, 6);
}

/// Recognizes two pairs.
pub fn get_two_pair(cards: &[Card]) -> (hand: Option<TwoPairStr>)
    requires
        cards.len() == 5,
    ensures
        hand == two_pair_of(cards@),
{
    let mut high_pair: Option<usize> = None;
    let mut low_pair: Option<usize> = None;
    let ghost mut found: Seq<int> = Seq::empty();
    let mut i: usize = 1;
    while i < 5
        invariant
            cards.len() == 5,
            1 + 2 * found.len() <= i <= 6,
            scan_pairs(cards@, 1) == found + scan_pairs(cards@, i as int),
            high_pair is Some <==> found.len() >= 1,
            low_pair is Some <==> found.len() >= 2,
            high_pair is Some ==> high_pair->0 == found[0] && found[0] <= 3,
            low_pair is Some ==> low_pair->0 == found[1] && found[1] <= 3,
        decreases 6 - i,
    {
        let this_rank = cards[i].rank;
        let prev_rank = cards[i - 1].rank;
        if this_rank == prev_rank {
            if !high_pair.is_some() {
                high_pair = Some(i - 1);
            } else {
                low_pair = Some(i - 1);
            }
            proof {
                let rest = scan_pairs(cards@, i + 2);
                assert(found + (seq![i - 1] + rest) =~= found.push(i - 1) + rest);
                found = found.push(i - 1);
            }
            // A pair uses up both of its cards.
            i += 2;
        } else {
            i += 1;
        }
    }
    assert(scan_pairs(cards@, 1) =~= found);
    proof {
        lemma_scan_pairs(cards@);
    }
    match (high_pair, low_pair) {
        (Some(first), Some(second)) => {
            let mut free: usize = 0;
            while free == first || free == first + 1 || free == second || free == second + 1
                invariant
                    first + 2 <= second <= 3,
                    free <= free_position(first as int, second as int),
                decreases 4 - free,
            {
                free += 1;
            }
            Some(
                TwoPairStr {
                    hi_rank: cards[first].rank,
                    lo_rank: cards[second].rank,
                    kicker: cards[free].rank,
                },
            )
        },
        _ => None,
    }
}

/// Recognizes one pair.
pub fn get_pair(cards: &[Card]) -> (hand: Option<PairStr>)
    requires
        cards.len() == 5,
    ensures
        hand == pair_of(cards@),
{
    let mut pair_start: usize = 4;
    let mut pairs: usize = 0;
    let mut i: usize = 4;
    while i > 0
        invariant
            cards.len() == 5,
            i <= 4,
            pairs <= 4 - i,
            pairs == neighbour_pairs(cards@, 4) - neighbour_pairs(cards@, i as int),
            pair_start == first_pair(cards@, i as int),
        decreases i,
    {
        i -= 1;
        if cards[i].rank == cards[i + 1].rank {
            pair_start = i;
            pairs += 1;
        }
    }
    if pairs != 1 {
        return None;
    }
    assert(pair_start <= 3) by {
        reveal_with_fuel(first_pair, 6);
        reveal_with_fuel(neighbour_pairs, 6);
    }
    let pair_rank = cards[pair_start].rank;
    let mut kickers = [pair_rank; 3];
    let mut kicker_index: usize = 0;
    let ghost rest = cards@.remove(pair_start as int).remove(pair_start as int);
    let mut i: usize = 0;
    while i < 5
        invariant
            cards.len() == 5,
            i <= 5,
            pair_start <= 3,
            rest == cards@.remove(pair_start as int).remove(pair_start as int),
            kicker_index == if i <= pair_start {
                i as int
            } else if i == pair_start + 1 {
                i - 1
            } else {
                i - 2
            },
            forall|k: int| 0 <= k < kicker_index ==> (#[trigger] kickers[k]) == rest[k].rank,
        decreases 5 - i,
    {
        if i != pair_start && i != pair_start + 1 {
            kickers[kicker_index] = cards[i].rank;
            kicker_index += 1;
        }
        i += 1;
    }
    let hand = PairStr { rank: pair_rank, kickers };
    assert(hand.kickers =~= pair_of(cards@)->0.kickers);
    Some(hand)
}

/// The five ranks in the order of the cards.
pub fn get_hi_card(cards: &[Card]) -> (hand: HiCardStr)
    requires
        cards.len() == 5,
    ensures
        hand == hi_card_of(cards@),
{
    let hand = HiCardStr {
        ranks: [cards[0].rank, cards[1].rank, cards[2].rank, cards[3].rank, cards[4].rank],
    };
    assert(hand.ranks =~= hi_card_of(cards@).ranks);
    hand
}

impl Hand {
    /// Makes five cards, sorted by descending rank, into a hand.
    pub fn get_hand(cards: &[Card]) -> (hand: Hand)
        requires
            sorted_five(cards@),
            !five_alike(cards@),
        ensures
            hand == classify(cards@),
            hand.category() == counted_category(cards@),
            cards@.no_duplicates() ==> hand.wf(),
    {
        proof {
            lemma_category_by_counts(cards@);
            if cards@.no_duplicates() {
                lemma_classify_is_well_formed(cards@);
            }
        }
        match get_straight_flush(cards) {
            Some(hand) => return Hand::StraightFlush(hand),
            None => {},
        }
        match get_quads(cards) {
            Some(hand) => return Hand::Quads(hand),
            None => {},
        }
        match get_full_house(cards) {
            Some(hand) => return Hand::FullHouse(hand),
            None => {},
        }
        match get_flush(cards) {
            Some(hand) => return Hand::Flush(hand),
            None => {},
        }
        match get_straight(cards) {
            Some(hand) => return Hand::Straight(hand),
            None => {},
        }
        match get_trips(cards) {
            Some(hand) => return Hand::Trips(hand),
            None => {},
        }
        match get_two_pair(cards) {
            Some(hand) => return Hand::TwoPair(hand),
            None => {},
        }
        match get_pair(cards) {
            Some(hand) => return Hand::Pair(hand),
            None => {},
        }
        Hand::HiCard(get_hi_card(cards))
    }
}

} // verus!
