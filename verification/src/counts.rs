//! The category of five cards by counting equal ranks.
//!
//! `hand_builder` recognizes a category by the places that equal ranks take
//! among sorted cards. Here the categories are told apart without regard to
//! places: by how often each rank occurs, by whether the ranks are five in
//! a row, and by whether the cards share a suit. The lemmas show that both
//! ways agree on sorted cards.

use crate::arrangement::lemma_same_cards_same_flush;
use crate::best_hand::{lemma_rank_count, rank_count, ranks_in};
use crate::cards::{Card, Rank};
use crate::hand::Hand;
use crate::hand_builder::{
    classify, first_pair, five_alike, flush_suit, full_house_of, is_run, is_wheel,
    neighbour_pairs, pair_of, quads_of, scan_pairs, sorted_five, steps_down, straight_of,
    trips_of, two_pair_of,
};
use vstd::prelude::*;

verus! {

/// One if the card has the rank, zero if not.
pub open spec fn hit(card: Card, rank: Rank) -> int {
    if card.rank == rank {
        1
    } else {
        0
    }
}

/// How many of five cards have the rank.
pub open spec fn times(cards: Seq<Card>, rank: Rank) -> int {
    hit(cards[0], rank) + hit(cards[1], rank) + hit(cards[2], rank) + hit(cards[3], rank) + hit(
        cards[4],
        rank,
    )
}

/// Some rank occurs exactly `n` times.
pub open spec fn some_rank_times(cards: Seq<Card>, n: int) -> bool {
    exists|rank: Rank| #[trigger] times(cards, rank) == n
}

/// Some rank occurs at least three times.
pub open spec fn three_alike(cards: Seq<Card>) -> bool {
    exists|rank: Rank| #[trigger] times(cards, rank) >= 3
}

/// Two different ranks occur at least twice each, or one rank occurs at
/// least four times: two disjoint pairs can be made.
pub open spec fn two_pairs_alike(cards: Seq<Card>) -> bool {
    ||| exists|high: Rank, low: Rank|
        high != low && #[trigger] times(cards, high) >= 2 && #[trigger] times(cards, low) >= 2
    ||| exists|rank: Rank| #[trigger] times(cards, rank) >= 4
}

/// One rank occurs exactly twice, and every other rank once at most.
pub open spec fn lone_pair(cards: Seq<Card>) -> bool {
    exists|rank: Rank|
        #[trigger] times(cards, rank) == 2 && forall|other: Rank|
            other != rank ==> #[trigger] times(cards, other) <= 1
}

/// The five ranks from the one at position `low` upwards occur once each.
pub open spec fn five_in_a_row(cards: Seq<Card>, low: int) -> bool {
    &&& 0 <= low <= 8
    &&& times(cards, Rank::from_value(low)) == 1
    &&& times(cards, Rank::from_value(low + 1)) == 1
    &&& times(cards, Rank::from_value(low + 2)) == 1
    &&& times(cards, Rank::from_value(low + 3)) == 1
    &&& times(cards, Rank::from_value(low + 4)) == 1
}

/// Ace, two, three, four and five occur once each.
pub open spec fn wheel_ranks(cards: Seq<Card>) -> bool {
    &&& times(cards, Rank::Ace) == 1
    &&& times(cards, Rank::Two) == 1
    &&& times(cards, Rank::Three) == 1
    &&& times(cards, Rank::Four) == 1
    &&& times(cards, Rank::Five) == 1
}

/// The ranks are five in a row, the ace counting high or low.
pub open spec fn straight_ranks(cards: Seq<Card>) -> bool {
    wheel_ranks(cards) || exists|low: int| #[trigger] five_in_a_row(cards, low)
}

/// The category of five cards, by counting.
pub open spec fn counted_category(cards: Seq<Card>) -> int {
    if flush_suit(cards) is Some && straight_ranks(cards) {
        8
    } else if some_rank_times(cards, 4) {
        7
    } else if some_rank_times(cards, 3) && some_rank_times(cards, 2) {
        6
    } else if flush_suit(cards) is Some {
        5
    } else if straight_ranks(cards) {
        4
    } else if three_alike(cards) {
        3
    } else if two_pairs_alike(cards) {
        2
    } else if lone_pair(cards) {
        1
    } else {
        0
    }
}

/// Among sorted cards, cards of one rank stand side by side: a card
/// between two cards of a rank has that rank.
proof fn lemma_between(cards: Seq<Card>, rank: Rank, i: int, j: int, k: int)
    requires
        sorted_five(cards),
        0 <= i <= j <= k < 5,
        cards[i].rank == rank,
        cards[k].rank == rank,
    ensures
        cards[j].rank == rank,
{
    Rank::lemma_value_injective(cards[j].rank, rank);
}

/// Four of a kind is recognized exactly where some rank occurs four times.
pub proof fn lemma_quads_by_counts(cards: Seq<Card>)
    requires
        sorted_five(cards),
    ensures
        quads_of(cards) is Some <==> some_rank_times(cards, 4),
        quads_of(cards) is Some ==> times(cards, quads_of(cards)->0.rank) == 4 && times(
            cards,
            quads_of(cards)->0.kicker,
        ) == 1,
{
    if quads_of(cards) is Some {
        assert(times(cards, quads_of(cards)->0.rank) == 4);
    }
    if some_rank_times(cards, 4) {
        let rank = choose|rank: Rank| #[trigger] times(cards, rank) == 4;
        if cards[0].rank == rank {
            if cards[4].rank == rank {
                lemma_between(cards, rank, 0, 1, 4);
                lemma_between(cards, rank, 0, 2, 4);
                lemma_between(cards, rank, 0, 3, 4);
            } else {
                if cards[3].rank == rank {
                    lemma_between(cards, rank, 0, 1, 3);
                    lemma_between(cards, rank, 0, 2, 3);
                }
            }
        } else {
            if cards[1].rank == rank && cards[4].rank == rank {
                lemma_between(cards, rank, 1, 2, 4);
                lemma_between(cards, rank, 1, 3, 4);
            }
        }
    }
}

/// Three of a kind is recognized exactly where some rank occurs three
/// times or more.
pub proof fn lemma_trips_by_counts(cards: Seq<Card>)
    requires
        sorted_five(cards),
    ensures
        trips_of(cards) is Some <==> three_alike(cards),
        trips_of(cards) is Some ==> times(cards, trips_of(cards)->0.rank) >= 3,
{
    if cards[0].rank == cards[2].rank {
        lemma_between(cards, cards[0].rank, 0, 1, 2);
        assert(times(cards, cards[0].rank) >= 3);
    } else if cards[1].rank == cards[3].rank {
        lemma_between(cards, cards[1].rank, 1, 2, 3);
        assert(times(cards, cards[1].rank) >= 3);
    } else if cards[2].rank == cards[4].rank {
        lemma_between(cards, cards[2].rank, 2, 3, 4);
        assert(times(cards, cards[2].rank) >= 3);
    }
    if three_alike(cards) {
        let rank = choose|rank: Rank| #[trigger] times(cards, rank) >= 3;
        if cards[0].rank == rank {
            if cards[2].rank != rank {
                if cards[3].rank == rank {
                    lemma_between(cards, rank, 0, 2, 3);
                } else if cards[4].rank == rank {
                    lemma_between(cards, rank, 0, 2, 4);
                }
            }
        } else if cards[1].rank == rank {
            if cards[3].rank != rank {
                if cards[4].rank == rank {
                    lemma_between(cards, rank, 1, 3, 4);
                }
            }
        }
    }
}

/// A full house is recognized exactly where one rank occurs three times and
/// another twice.
pub proof fn lemma_full_house_by_counts(cards: Seq<Card>)
    requires
        sorted_five(cards),
        !five_alike(cards),
    ensures
        full_house_of(cards) is Some <==> some_rank_times(cards, 3) && some_rank_times(cards, 2),
        full_house_of(cards) is Some ==> times(cards, full_house_of(cards)->0.three_of) == 3
            && times(cards, full_house_of(cards)->0.two_of) == 2,
{
    if full_house_of(cards) is Some {
        let house = full_house_of(cards)->0;
        if cards[0].rank == cards[4].rank {
            lemma_between(cards, cards[0].rank, 0, 1, 4);
            lemma_between(cards, cards[0].rank, 0, 2, 4);
            lemma_between(cards, cards[0].rank, 0, 3, 4);
        }
        assert(times(cards, house.three_of) == 3);
        assert(times(cards, house.two_of) == 2);
    }
    if some_rank_times(cards, 3) && some_rank_times(cards, 2) {
        let three = choose|rank: Rank| #[trigger] times(cards, rank) == 3;
        let two = choose|rank: Rank| #[trigger] times(cards, rank) == 2;
        if cards[0].rank == three {
            if cards[2].rank != three {
                if cards[3].rank == three {
                    lemma_between(cards, three, 0, 2, 3);
                } else if cards[4].rank == three {
                    lemma_between(cards, three, 0, 2, 4);
                }
            }
        } else if cards[0].rank == two {
            if cards[1].rank != two {
                if cards[2].rank == two {
                    lemma_between(cards, two, 0, 1, 2);
                } else if cards[3].rank == two {
                    lemma_between(cards, two, 0, 1, 3);
                } else if cards[4].rank == two {
                    lemma_between(cards, two, 0, 1, 4);
                }
            }
        }
    }
}

/// Among sorted cards, a rank that occurs twice or more occurs at two
/// places side by side.
proof fn lemma_pair_place(cards: Seq<Card>, rank: Rank)
    requires
        sorted_five(cards),
        times(cards, rank) >= 2,
    ensures
        (cards[0].rank == rank && cards[1].rank == rank) || (cards[1].rank == rank && cards[2].rank
            == rank) || (cards[2].rank == rank && cards[3].rank == rank) || (cards[3].rank == rank
            && cards[4].rank == rank),
{
    if cards[0].rank == rank {
        if cards[2].rank == rank {
            lemma_between(cards, rank, 0, 1, 2);
        } else if cards[3].rank == rank {
            lemma_between(cards, rank, 0, 1, 3);
        } else if cards[4].rank == rank {
            lemma_between(cards, rank, 0, 1, 4);
        }
    } else if cards[1].rank == rank {
        if cards[3].rank == rank {
            lemma_between(cards, rank, 1, 2, 3);
        } else if cards[4].rank == rank {
            lemma_between(cards, rank, 1, 2, 4);
        }
    } else if cards[2].rank == rank {
        if cards[4].rank == rank {
            lemma_between(cards, rank, 2, 3, 4);
        }
    }
}

/// Among sorted cards, a rank that occurs four times or more takes the
/// first four places or the last four.
proof fn lemma_four_places(cards: Seq<Card>, rank: Rank)
    requires
        sorted_five(cards),
        times(cards, rank) >= 4,
    ensures
        cards[1].rank == rank,
        cards[2].rank == rank,
        cards[3].rank == rank,
        cards[0].rank == rank || cards[4].rank == rank,
{
    if cards[0].rank == rank {
        if cards[4].rank == rank {
            lemma_between(cards, rank, 0, 1, 4);
            lemma_between(cards, rank, 0, 2, 4);
            lemma_between(cards, rank, 0, 3, 4);
        } else if cards[3].rank == rank {
            lemma_between(cards, rank, 0, 1, 3);
            lemma_between(cards, rank, 0, 2, 3);
        }
    } else if cards[1].rank == rank && cards[4].rank == rank {
        lemma_between(cards, rank, 1, 2, 4);
        lemma_between(cards, rank, 1, 3, 4);
    }
}

/// Two pairs are recognized exactly where two disjoint pairs can be made.
pub proof fn lemma_two_pair_by_counts(cards: Seq<Card>)
    requires
        sorted_five(cards),
    ensures
        two_pair_of(cards) is Some <==> two_pairs_alike(cards),
        two_pair_of(cards) is Some ==> times(cards, two_pair_of(cards)->0.hi_rank) >= 2 && times(
            cards,
            two_pair_of(cards)->0.lo_rank,
        ) >= 2,
{
    reveal_with_fuel(scan_pairs, 6);
    if two_pair_of(cards) is Some {
        let found = two_pair_of(cards)->0;
        assert(times(cards, found.hi_rank) >= 2);
        assert(times(cards, found.lo_rank) >= 2);
        if found.hi_rank == found.lo_rank {
            assert(times(cards, found.hi_rank) >= 4);
        }
    }
    if two_pairs_alike(cards) {
        if exists|rank: Rank| #[trigger] times(cards, rank) >= 4 {
            let rank = choose|rank: Rank| #[trigger] times(cards, rank) >= 4;
            lemma_four_places(cards, rank);
        } else {
            let (high, low) = choose|high: Rank, low: Rank|
                high != low && #[trigger] times(cards, high) >= 2 && #[trigger] times(cards, low)
                    >= 2;
            lemma_pair_place(cards, high);
            lemma_pair_place(cards, low);
        }
    }
}

/// A pair is recognized exactly where one rank occurs twice and no other
/// rank more than once.
pub proof fn lemma_pair_by_counts(cards: Seq<Card>)
    requires
        sorted_five(cards),
    ensures
        pair_of(cards) is Some <==> lone_pair(cards),
        pair_of(cards) is Some ==> times(cards, pair_of(cards)->0.rank) == 2,
{
    reveal_with_fuel(neighbour_pairs, 5);
    reveal_with_fuel(first_pair, 5);
    if pair_of(cards) is Some {
        let at = first_pair(cards, 0);
        let rank = cards[at].rank;
        assert(0 <= at <= 3);
        assert(times(cards, rank) == 2) by {
            if times(cards, rank) >= 3 {
                if at >= 2 && cards[0].rank == rank {
                    lemma_between(cards, rank, 0, 1, at);
                }
                if at >= 3 && cards[1].rank == rank {
                    lemma_between(cards, rank, 1, 2, at);
                }
                if at <= 1 && cards[4].rank == rank {
                    lemma_between(cards, rank, at + 1, 3, 4);
                }
                if at <= 0 && cards[3].rank == rank {
                    lemma_between(cards, rank, at + 1, 2, 3);
                }
            }
        }
        assert forall|other: Rank| other != rank implies #[trigger] times(cards, other) <= 1 by {
            if times(cards, other) >= 2 {
                lemma_pair_place(cards, other);
            }
        }
    }
    if lone_pair(cards) {
        let rank = choose|rank: Rank|
            #[trigger] times(cards, rank) == 2 && forall|other: Rank|
                other != rank ==> #[trigger] times(cards, other) <= 1;
        lemma_pair_place(cards, rank);
        assert(times(cards, cards[0].rank) <= 2);
        assert(times(cards, cards[1].rank) <= 2);
        assert(times(cards, cards[2].rank) <= 2);
        assert(times(cards, cards[3].rank) <= 2);
    }
}

/// Where five different ranks occur once each among five cards, each card
/// has one of them.
proof fn lemma_five_ranks_once(cards: Seq<Card>, a: Rank, b: Rank, c: Rank, d: Rank, e: Rank)
    requires
        cards.len() == 5,
        a != b && a != c && a != d && a != e && b != c && b != d && b != e && c != d && c != e
            && d != e,
        times(cards, a) == 1,
        times(cards, b) == 1,
        times(cards, c) == 1,
        times(cards, d) == 1,
        times(cards, e) == 1,
    ensures
        forall|i: int|
            0 <= i < 5 ==> {
                let rank = (#[trigger] cards[i]).rank;
                rank == a || rank == b || rank == c || rank == d || rank == e
            },
{
    assert forall|i: int| 0 <= i < 5 implies {
        let rank = (#[trigger] cards[i]).rank;
        rank == a || rank == b || rank == c || rank == d || rank == e
    } by {
        let all = |card: Card|
            hit(card, a) + hit(card, b) + hit(card, c) + hit(card, d) + hit(card, e);
        assert(all(cards[0]) + all(cards[1]) + all(cards[2]) + all(cards[3]) + all(cards[4]) == 5);
        assert(all(cards[0]) <= 1 && all(cards[1]) <= 1 && all(cards[2]) <= 1 && all(cards[3]) <= 1
            && all(cards[4]) <= 1);
        assert(all(cards[i]) == 1);
    }
}

/// A run of sorted cards holds five ranks in a row, once each.
proof fn lemma_run_is_five_in_a_row(cards: Seq<Card>)
    requires
        sorted_five(cards),
        steps_down(cards, 1),
        steps_down(cards, 2),
        steps_down(cards, 3),
        steps_down(cards, 4),
    ensures
        five_in_a_row(cards, cards[4].rank.value()),
{
    cards[0].rank.lemma_value_round_trip();
    cards[1].rank.lemma_value_round_trip();
    cards[2].rank.lemma_value_round_trip();
    cards[3].rank.lemma_value_round_trip();
    cards[4].rank.lemma_value_round_trip();
    let low = cards[4].rank.value();
    assert(Rank::from_value(low) == cards[4].rank);
    assert(Rank::from_value(low + 1) == cards[3].rank);
    assert(Rank::from_value(low + 2) == cards[2].rank);
    assert(Rank::from_value(low + 3) == cards[1].rank);
    assert(Rank::from_value(low + 4) == cards[0].rank);
}

/// Sorted cards that hold five given ranks once each, named from the
/// highest down, hold them in that order.
proof fn lemma_five_ranks_in_order(cards: Seq<Card>, a: Rank, b: Rank, c: Rank, d: Rank, e: Rank)
    requires
        sorted_five(cards),
        a.value() > b.value() > c.value() > d.value() > e.value(),
        times(cards, a) == 1,
        times(cards, b) == 1,
        times(cards, c) == 1,
        times(cards, d) == 1,
        times(cards, e) == 1,
    ensures
        cards[0].rank == a,
        cards[1].rank == b,
        cards[2].rank == c,
        cards[3].rank == d,
        cards[4].rank == e,
{
    lemma_five_ranks_once(cards, a, b, c, d, e);
    let r0 = cards[0].rank;
    let r1 = cards[1].rank;
    let r2 = cards[2].rank;
    let r3 = cards[3].rank;
    let r4 = cards[4].rank;
    assert(r0 == a || r0 == b || r0 == c || r0 == d || r0 == e);
    assert(r1 == a || r1 == b || r1 == c || r1 == d || r1 == e);
    assert(r2 == a || r2 == b || r2 == c || r2 == d || r2 == e);
    assert(r3 == a || r3 == b || r3 == c || r3 == d || r3 == e);
    assert(r4 == a || r4 == b || r4 == c || r4 == d || r4 == e);
    assert(r0 != r1 && r1 != r2 && r2 != r3 && r3 != r4);
    assert(r0.value() > r1.value() > r2.value() > r3.value() > r4.value());
}

/// The wheel holds the wheel's ranks once each.
proof fn lemma_wheel_holds_wheel_ranks(cards: Seq<Card>)
    requires
        cards.len() == 5,
        is_wheel(cards),
    ensures
        wheel_ranks(cards),
{
}

/// Sorted cards that hold the wheel's ranks once each are the wheel.
proof fn lemma_wheel_ranks_make_wheel(cards: Seq<Card>)
    requires
        sorted_five(cards),
        wheel_ranks(cards),
    ensures
        is_wheel(cards),
{
    lemma_five_ranks_in_order(cards, Rank::Ace, Rank::Five, Rank::Four, Rank::Three, Rank::Two);
}

/// Sorted cards that hold five ranks in a row once each run down rank by
/// rank.
#[verifier::rlimit(30)]
proof fn lemma_five_in_a_row_make_run(cards: Seq<Card>, low: int)
    requires
        sorted_five(cards),
        five_in_a_row(cards, low),
    ensures
        steps_down(cards, 1),
        steps_down(cards, 2),
        steps_down(cards, 3),
        steps_down(cards, 4),
{
    let a = Rank::from_value(low + 4);
    let b = Rank::from_value(low + 3);
    let c = Rank::from_value(low + 2);
    let d = Rank::from_value(low + 1);
    let e = Rank::from_value(low);
    assert(a.value() == low + 4) by {
        Rank::lemma_from_value(low + 4);
    }
    assert(b.value() == low + 3) by {
        Rank::lemma_from_value(low + 3);
    }
    assert(c.value() == low + 2) by {
        Rank::lemma_from_value(low + 2);
    }
    assert(d.value() == low + 1) by {
        Rank::lemma_from_value(low + 1);
    }
    assert(e.value() == low) by {
        Rank::lemma_from_value(low);
    }
    lemma_five_ranks_in_order(cards, a, b, c, d, e);
}

/// A straight is recognized exactly where the ranks are five in a row.
pub proof fn lemma_straight_by_counts(cards: Seq<Card>)
    requires
        sorted_five(cards),
    ensures
        straight_of(cards) is Some <==> straight_ranks(cards),
{
    if is_wheel(cards) {
        lemma_wheel_holds_wheel_ranks(cards);
    } else if is_run(cards, 1) {
        assert(steps_down(cards, 1) && steps_down(cards, 2) && steps_down(cards, 3) && steps_down(
            cards,
            4,
        ));
        lemma_run_is_five_in_a_row(cards);
    }
    if wheel_ranks(cards) {
        lemma_wheel_ranks_make_wheel(cards);
    } else if straight_ranks(cards) {
        let low = choose|low: int| #[trigger] five_in_a_row(cards, low);
        lemma_five_in_a_row_make_run(cards, low);
        assert forall|i: int| 1 <= i < 5 implies #[trigger] steps_down(cards, i) by {}
    }
}

/// The category found by position among sorted cards is the category found
/// by counting.
#[verifier::rlimit(30)]
pub proof fn lemma_category_by_counts(cards: Seq<Card>)
    requires
        sorted_five(cards),
        !five_alike(cards),
    ensures
        classify(cards).category() == counted_category(cards),
{
    lemma_straight_by_counts(cards);
    lemma_quads_by_counts(cards);
    lemma_full_house_by_counts(cards);
    lemma_trips_by_counts(cards);
    lemma_two_pair_by_counts(cards);
    lemma_pair_by_counts(cards);
}

/// The ranks that make the hand occur as often as the category says: four
/// times, three and two times, three times, twice and twice, or twice.
#[verifier::rlimit(30)]
pub proof fn lemma_hand_by_counts(cards: Seq<Card>)
    requires
        sorted_five(cards),
        !five_alike(cards),
    ensures
        match classify(cards) {
            Hand::Quads(hand) => times(cards, hand.rank) == 4 && times(cards, hand.kicker) == 1,
            Hand::FullHouse(hand) => times(cards, hand.three_of) == 3 && times(cards, hand.two_of)
                == 2,
            Hand::Trips(hand) => times(cards, hand.rank) == 3,
            Hand::TwoPair(hand) => times(cards, hand.hi_rank) == 2 && times(cards, hand.lo_rank)
                == 2 && times(cards, hand.kicker) == 1,
            Hand::Pair(hand) => times(cards, hand.rank) == 2,
            _ => true,
        },
{
    lemma_quads_by_counts(cards);
    lemma_full_house_by_counts(cards);
    lemma_trips_by_counts(cards);
    lemma_two_pair_by_counts(cards);
    lemma_pair_by_counts(cards);
    match classify(cards) {
        Hand::Trips(hand) => {
            if times(cards, hand.rank) >= 4 {
                lemma_four_places(cards, hand.rank);
            }
        },
        Hand::TwoPair(hand) => {
            reveal_with_fuel(scan_pairs, 6);
            if times(cards, hand.hi_rank) >= 3 {
                assert(three_alike(cards));
            }
            if times(cards, hand.lo_rank) >= 3 {
                assert(three_alike(cards));
            }
            if times(cards, hand.kicker) >= 2 {
                lemma_pair_place(cards, hand.kicker);
            }
        },
        _ => {},
    }
}

/// Counting by place gives the number of cards of the rank, which does not
/// depend on the order of the cards.
pub proof fn lemma_times_is_rank_count(cards: Seq<Card>, rank: Rank)
    requires
        cards.len() == 5,
    ensures
        times(cards, rank) == rank_count(cards, rank),
{
    lemma_rank_count(cards, rank, 5);
    assert(cards.take(5) =~= cards);
    assert(ranks_in(cards, rank, 5) == times(cards, rank)) by {
        reveal_with_fuel(ranks_in, 6);
    }
}

/// The category found by counting does not depend on the order of the
/// cards.
pub proof fn lemma_counted_category_any_order(a: Seq<Card>, b: Seq<Card>)
    requires
        a.len() == 5,
        b.len() == 5,
        a.to_multiset() == b.to_multiset(),
    ensures
        forall|rank: Rank| #[trigger] times(a, rank) == times(b, rank),
        counted_category(a) == counted_category(b),
{
    assert forall|rank: Rank| #[trigger] times(a, rank) == times(b, rank) by {
        lemma_times_is_rank_count(a, rank);
        lemma_times_is_rank_count(b, rank);
    }
    assert forall|rank: Rank| #[trigger] times(b, rank) == times(a, rank) by {
        assert(times(a, rank) == times(b, rank));
    }
    lemma_same_cards_same_flush(a, b);
    assert(some_rank_times(a, 4) == some_rank_times(b, 4));
    assert(some_rank_times(a, 3) == some_rank_times(b, 3));
    assert(some_rank_times(a, 2) == some_rank_times(b, 2));
    assert(three_alike(a) == three_alike(b));
    assert(two_pairs_alike(a) == two_pairs_alike(b));
    assert(lone_pair(a) == lone_pair(b)) by {
        lemma_lone_pair_carries_over(a, b);
        lemma_lone_pair_carries_over(b, a);
    }
    assert(straight_ranks(a) == straight_ranks(b)) by {
        lemma_straight_ranks_carry_over(a, b);
        lemma_straight_ranks_carry_over(b, a);
    }
}

/// A lone pair among cards is a lone pair among cards that hold each rank
/// as often.
proof fn lemma_lone_pair_carries_over(a: Seq<Card>, b: Seq<Card>)
    requires
        forall|rank: Rank| #[trigger] times(a, rank) == times(b, rank),
        forall|rank: Rank| #[trigger] times(b, rank) == times(a, rank),
    ensures
        lone_pair(a) ==> lone_pair(b),
{
    if lone_pair(a) {
        let rank = choose|rank: Rank|
            #[trigger] times(a, rank) == 2 && forall|other: Rank|
                other != rank ==> #[trigger] times(a, other) <= 1;
        assert(times(b, rank) == 2);
        assert forall|other: Rank| other != rank implies #[trigger] times(b, other) <= 1 by {
            assert(times(a, other) <= 1);
        }
    }
}

/// Five ranks in a row among cards are five in a row among cards that hold
/// each rank as often.
proof fn lemma_straight_ranks_carry_over(a: Seq<Card>, b: Seq<Card>)
    requires
        forall|rank: Rank| #[trigger] times(a, rank) == times(b, rank),
    ensures
        straight_ranks(a) ==> straight_ranks(b),
{
    if wheel_ranks(a) {
        assert(wheel_ranks(b));
    } else if straight_ranks(a) {
        let low = choose|low: int| #[trigger] five_in_a_row(a, low);
        assert(five_in_a_row(b, low));
    }
}

} // verus!
