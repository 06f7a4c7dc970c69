//! What holds of the hand of any five cards.
//!
//! Sorting by rank leaves the order among cards of one rank open. The
//! lemmas here show that the hand is the same for every sorted arrangement
//! of the same five cards, and that distinct cards make a hand in which
//! each rank plays one part only.

use crate::cards::{Card, Rank};
use crate::hand_builder::{
    classify, first_pair, five_alike, flush_of, flush_suit, full_house_of, hi_card_of, is_run,
    is_wheel, neighbour_pairs, pair_of, quads_of, scan_pairs, sorted_five, steps_down,
    straight_flush_of, straight_of, trips_of, two_pair_of,
};
use crate::hand::Hand;
use vstd::prelude::*;

verus! {

/// One if the rank of the card is at least `floor`, zero if not.
pub open spec fn reaches(card: Card, floor: int) -> int {
    if card.rank.value() >= floor {
        1
    } else {
        0
    }
}

/// Adds one for each card whose rank is at least `floor`.
pub open spec fn tally(floor: int) -> spec_fn(int, Card) -> int {
    |sum: int, card: Card| sum + reaches(card, floor)
}

/// The tally over five cards, card by card.
proof fn lemma_tally_five(cards: Seq<Card>, floor: int)
    requires
        cards.len() == 5,
    ensures
        cards.fold_left(0, tally(floor)) == reaches(cards[0], floor) + reaches(cards[1], floor)
            + reaches(cards[2], floor) + reaches(cards[3], floor) + reaches(cards[4], floor),
{
    let f = tally(floor);
    let s4 = cards.drop_last();
    let s3 = s4.drop_last();
    let s2 = s3.drop_last();
    let s1 = s2.drop_last();
    let s0 = s1.drop_last();
    assert(s0.fold_left(0, f) == 0);
    assert(s1.fold_left(0, f) == f(s0.fold_left(0, f), s1.last()));
    assert(s2.fold_left(0, f) == f(s1.fold_left(0, f), s2.last()));
    assert(s3.fold_left(0, f) == f(s2.fold_left(0, f), s3.last()));
    assert(s4.fold_left(0, f) == f(s3.fold_left(0, f), s4.last()));
    assert(cards.fold_left(0, f) == f(s4.fold_left(0, f), cards.last()));
}

/// The tally does not depend on the arrangement of the cards.
proof fn lemma_tally_any_arrangement(a: Seq<Card>, b: Seq<Card>, floor: int)
    requires
        a.to_multiset() == b.to_multiset(),
    ensures
        a.fold_left(0, tally(floor)) == b.fold_left(0, tally(floor)),
{
    let f = tally(floor);
    assert forall|x: Card, y: Card, sum: int| #[trigger] f(f(sum, x), y) == f(f(sum, y), x) by {}
    vstd::seq_lib::lemma_fold_left_permutation(a, b, f, 0);
}

/// In two sorted arrangements of the same five cards, the same places hold
/// a rank of at least `floor`.
proof fn lemma_same_cards_same_tally(a: Seq<Card>, b: Seq<Card>, floor: int)
    requires
        sorted_five(a),
        sorted_five(b),
        a.to_multiset() == b.to_multiset(),
    ensures
        reaches(a[0], floor) == reaches(b[0], floor),
        reaches(a[1], floor) == reaches(b[1], floor),
        reaches(a[2], floor) == reaches(b[2], floor),
        reaches(a[3], floor) == reaches(b[3], floor),
        reaches(a[4], floor) == reaches(b[4], floor),
{
    lemma_tally_any_arrangement(a, b, floor);
    lemma_tally_five(a, floor);
    lemma_tally_five(b, floor);
}

/// Two sorted arrangements of the same five cards hold the same rank at
/// each place.
pub proof fn lemma_same_cards_same_ranks(a: Seq<Card>, b: Seq<Card>)
    requires
        sorted_five(a),
        sorted_five(b),
        a.to_multiset() == b.to_multiset(),
    ensures
        forall|i: int| 0 <= i < 5 ==> (#[trigger] a[i]).rank == b[i].rank,
{
    assert forall|i: int| 0 <= i < 5 implies (#[trigger] a[i]).rank == b[i].rank by {
        lemma_same_cards_same_tally(a, b, a[i].rank.value());
        lemma_same_cards_same_tally(a, b, b[i].rank.value());
        Rank::lemma_value_injective(a[i].rank, b[i].rank);
    }
}

/// If some cards share a suit, any arrangement of them shares it.
proof fn lemma_flush_carries_over(a: Seq<Card>, b: Seq<Card>)
    requires
        a.len() > 0,
        b.len() > 0,
        a.to_multiset() == b.to_multiset(),
        flush_suit(a) is Some,
    ensures
        flush_suit(b) == flush_suit(a),
{
    assert forall|j: int| 0 <= j < b.len() implies (#[trigger] b[j]).suit == a[0].suit by {
        let card = b[j];
        assert(b.contains(card));
        vstd::seq_lib::to_multiset_contains(b, card);
        vstd::seq_lib::to_multiset_contains(a, card);
        let k = choose|k: int| 0 <= k < a.len() && a[k] == card;
        assert(a[k].suit == a[0].suit);
    }
    assert(b[0].suit == a[0].suit);
}

/// Two arrangements of the same cards are of one suit together or not at
/// all.
pub proof fn lemma_same_cards_same_flush(a: Seq<Card>, b: Seq<Card>)
    requires
        a.len() > 0,
        a.to_multiset() == b.to_multiset(),
    ensures
        flush_suit(a) == flush_suit(b),
{
    vstd::seq_lib::to_multiset_len(a);
    vstd::seq_lib::to_multiset_len(b);
    if flush_suit(a) is Some {
        lemma_flush_carries_over(a, b);
    } else if flush_suit(b) is Some {
        lemma_flush_carries_over(b, a);
    }
}

/// The hand of five cards rests on their ranks, place by place, and on
/// whether they share a suit, and on nothing else.
#[verifier::rlimit(30)]
pub proof fn lemma_classify_by_ranks(a: Seq<Card>, b: Seq<Card>)
    requires
        a.len() == 5,
        b.len() == 5,
        forall|i: int| 0 <= i < 5 ==> (#[trigger] a[i]).rank == b[i].rank,
        flush_suit(a) is Some <==> flush_suit(b) is Some,
    ensures
        classify(a) == classify(b),
{
    assert(a[0].rank == b[0].rank && a[1].rank == b[1].rank && a[2].rank == b[2].rank
        && a[3].rank == b[3].rank && a[4].rank == b[4].rank);
    assert(is_run(a, 1) == is_run(b, 1)) by {
        assert forall|i: int| 1 <= i < 5 implies steps_down(a, i) == steps_down(b, i) by {}
    }
    assert(hi_card_of(a).ranks =~= hi_card_of(b).ranks);
    assert(trips_of(a) == trips_of(b)) by {
        if trips_of(a) is Some {
            assert(trips_of(a)->0.kickers =~= trips_of(b)->0.kickers);
        }
    }
    assert(two_pair_of(a) == two_pair_of(b)) by {
        reveal_with_fuel(scan_pairs, 6);
    }
    assert(pair_of(a) == pair_of(b)) by {
        reveal_with_fuel(neighbour_pairs, 5);
        reveal_with_fuel(first_pair, 5);
        if pair_of(a) is Some {
            assert(pair_of(a)->0.kickers =~= pair_of(b)->0.kickers);
        }
    }
}

/// The hand of five cards does not depend on how cards of equal rank are
/// arranged: any two sorted arrangements of the same cards give the same
/// hand.
pub proof fn lemma_classify_any_arrangement(a: Seq<Card>, b: Seq<Card>)
    requires
        sorted_five(a),
        sorted_five(b),
        a.to_multiset() == b.to_multiset(),
    ensures
        classify(a) == classify(b),
{
    lemma_same_cards_same_ranks(a, b);
    lemma_same_cards_same_flush(a, b);
    lemma_classify_by_ranks(a, b);
}

/// The category of the hand is that of the strongest recognizer that
/// answers; high card is left when none does.
pub proof fn lemma_classify_category(cards: Seq<Card>)
    ensures
        classify(cards).category() == if straight_flush_of(cards) is Some {
            8int
        } else if quads_of(cards) is Some {
            7int
        } else if full_house_of(cards) is Some {
            6int
        } else if flush_of(cards) is Some {
            5int
        } else if straight_of(cards) is Some {
            4int
        } else if trips_of(cards) is Some {
            3int
        } else if two_pair_of(cards) is Some {
            2int
        } else if pair_of(cards) is Some {
            1int
        } else {
            0int
        },
{
}

/// Five distinct cards are not all of one rank: there are four suits only.
pub proof fn lemma_distinct_cards_not_five_alike(cards: Seq<Card>)
    requires
        cards.len() == 5,
        cards.no_duplicates(),
    ensures
        !five_alike(cards),
{
    if five_alike(cards) {
        assert forall|i: int, j: int| 0 <= i < j < 5 implies (#[trigger] cards[i]).suit.value() != (
        #[trigger] cards[j]).suit.value() by {
            cards[i].suit.lemma_value_round_trip();
            cards[j].suit.lemma_value_round_trip();
            assert(cards[i].rank == cards[j].rank);
            assert(cards[i] != cards[j]);
        }
        cards[0].suit.lemma_value_round_trip();
        cards[1].suit.lemma_value_round_trip();
        cards[2].suit.lemma_value_round_trip();
        cards[3].suit.lemma_value_round_trip();
        cards[4].suit.lemma_value_round_trip();
    }
}

/// Sorted cards that hold no three of a kind, no two pairs and no pair
/// fall in rank from each place to the next.
proof fn lemma_no_pair_at_all(cards: Seq<Card>)
    requires
        sorted_five(cards),
        trips_of(cards) is None,
        two_pair_of(cards) is None,
        pair_of(cards) is None,
    ensures
        cards[0].rank.value() > cards[1].rank.value(),
        cards[1].rank.value() > cards[2].rank.value(),
        cards[2].rank.value() > cards[3].rank.value(),
        cards[3].rank.value() > cards[4].rank.value(),
{
    reveal_with_fuel(scan_pairs, 6);
    reveal_with_fuel(neighbour_pairs, 5);
}

/// The kickers of a lone pair fall in rank and lie apart from the pair.
proof fn lemma_pair_is_well_formed(cards: Seq<Card>)
    requires
        sorted_five(cards),
        pair_of(cards) is Some,
    ensures
        Hand::Pair(pair_of(cards)->0).wf(),
{
    reveal_with_fuel(neighbour_pairs, 5);
    reveal_with_fuel(first_pair, 5);
    let pair = pair_of(cards)->0;
    let at = first_pair(cards, 0);
    let rest = cards.remove(at).remove(at);
    assert(0 <= at <= 3);
    assert(pair.kickers@ =~= seq![rest[0].rank, rest[1].rank, rest[2].rank]);
    assert forall|k: int| 0 <= k < 3 implies (#[trigger] pair.kickers@[k]) != pair.rank by {}
}

/// Below a full house, the kickers of three of a kind fall in rank and lie
/// apart from the three.
proof fn lemma_trips_is_well_formed(cards: Seq<Card>)
    requires
        sorted_five(cards),
        quads_of(cards) is None,
        full_house_of(cards) is None,
        !five_alike(cards),
        trips_of(cards) is Some,
    ensures
        Hand::Trips(trips_of(cards)->0).wf(),
{
    let trips = trips_of(cards)->0;
    assert forall|k: int| 0 <= k < 2 implies (#[trigger] trips.kickers@[k]) != trips.rank by {}
}

/// Below three of a kind, the higher of two pairs stands first and the
/// free card belongs to neither.
proof fn lemma_two_pair_is_well_formed(cards: Seq<Card>)
    requires
        sorted_five(cards),
        trips_of(cards) is None,
        two_pair_of(cards) is Some,
    ensures
        Hand::TwoPair(two_pair_of(cards)->0).wf(),
{
    reveal_with_fuel(scan_pairs, 6);
}

/// Cards of one suit and descending rank, all distinct, fall in rank from
/// each place to the next.
proof fn lemma_flush_falls(cards: Seq<Card>)
    requires
        sorted_five(cards),
        cards.no_duplicates(),
        flush_suit(cards) is Some,
    ensures
        cards[0].rank.value() > cards[1].rank.value(),
        cards[1].rank.value() > cards[2].rank.value(),
        cards[2].rank.value() > cards[3].rank.value(),
        cards[3].rank.value() > cards[4].rank.value(),
{
    assert forall|i: int| 0 <= i < 4 implies (#[trigger] cards[i]).rank.value() != cards[i
        + 1].rank.value() by {
        assert(cards[i].suit == cards[0].suit);
        assert(cards[i + 1].suit == cards[0].suit);
        assert(cards[i] != cards[i + 1]);
        Rank::lemma_value_injective(cards[i].rank, cards[i + 1].rank);
    }
    assert(cards[0].rank.value() != cards[1].rank.value());
    assert(cards[1].rank.value() != cards[2].rank.value());
    assert(cards[2].rank.value() != cards[3].rank.value());
    assert(cards[3].rank.value() != cards[4].rank.value());
}

/// A straight ends on a five at least.
proof fn lemma_straight_ends_high(cards: Seq<Card>)
    requires
        cards.len() == 5,
        straight_of(cards) is Some,
    ensures
        straight_of(cards)->0.hi_rank.value() >= Rank::Five.value(),
{
    if !is_wheel(cards) {
        assert(steps_down(cards, 1) && steps_down(cards, 2) && steps_down(cards, 3) && steps_down(
            cards,
            4,
        ));
        cards[4].rank.lemma_value_round_trip();
    }
}

/// Five distinct cards in descending order make a hand in which each rank
/// plays one part only.
pub proof fn lemma_classify_is_well_formed(cards: Seq<Card>)
    requires
        sorted_five(cards),
        cards.no_duplicates(),
    ensures
        classify(cards).wf(),
{
    lemma_distinct_cards_not_five_alike(cards);
    if straight_flush_of(cards) is Some {
        lemma_straight_ends_high(cards);
    } else if quads_of(cards) is Some {
    } else if full_house_of(cards) is Some {
    } else if flush_of(cards) is Some {
        lemma_flush_falls(cards);
        assert(flush_of(cards)->0.ranks@ =~= seq![
            cards[0].rank,
            cards[1].rank,
            cards[2].rank,
            cards[3].rank,
            cards[4].rank,
        ]);
    } else if straight_of(cards) is Some {
        lemma_straight_ends_high(cards);
    } else if trips_of(cards) is Some {
        lemma_trips_is_well_formed(cards);
    } else if two_pair_of(cards) is Some {
        lemma_two_pair_is_well_formed(cards);
    } else if pair_of(cards) is Some {
        lemma_pair_is_well_formed(cards);
    } else {
        lemma_no_pair_at_all(cards);
        assert(hi_card_of(cards).ranks@ =~= seq![
            cards[0].rank,
            cards[1].rank,
            cards[2].rank,
            cards[3].rank,
            cards[4].rank,
        ]);
    }
}

} // verus!
