//! The best five-card hand among five or more cards.

use crate::arrangement::lemma_classify_is_well_formed;
use crate::binomial::binomial;
use crate::cards::{Card, Rank, Suit};
use crate::combinations::{
    choice_at, count_true, is_blank, is_choice, lemma_choice_at, lemma_choice_at_end,
    lemma_count_monotone, lemma_every_choice_is_reached, lemma_successor,
};
use crate::hand::{
    lemma_order_antisymmetric, lemma_order_total, lemma_order_transitive, Hand, HiCardStr,
};
use crate::hand_builder::{classify, five_alike, sorted_five};
use crate::sorting::{descending, lemma_descending, lemma_descending_any_order, sort_descending};
use crate::subsets::{chosen, lemma_chosen_len, selected, AllFiveCardSubsets};
use vstd::prelude::*;
use vstd::seq_lib::to_multiset_build;

verus! {

/// How many of the cards have the given rank.
pub open spec fn rank_count(cards: Seq<Card>, rank: Rank) -> nat {
    let held = cards.to_multiset();
    held.count(Card { rank, suit: Suit::Spades }) + held.count(Card { rank, suit: Suit::Hearts })
        + held.count(Card { rank, suit: Suit::Clubs }) + held.count(
        Card { rank, suit: Suit::Diamonds },
    )
}

/// No rank occurs more than four times, as in any part of a deck.
pub open spec fn no_five_alike(cards: Seq<Card>) -> bool {
    forall|rank: Rank| #[trigger] rank_count(cards, rank) <= 4
}

/// The hand that the cards selected by a mask form.
pub open spec fn hand_of(cards: Seq<Card>, mask: Seq<bool>) -> Hand {
    classify(selected(cards, mask))
}

/// `best` is the hand of one five-card subset of the cards, and no
/// five-card subset of them makes a stronger hand.
pub open spec fn is_best_hand(cards: Seq<Card>, best: Hand) -> bool {
    &&& exists|mask: Seq<bool>|
        is_choice(mask, cards.len() as int) && #[trigger] hand_of(cards, mask) == best
    &&& forall|mask: Seq<bool>|
        is_choice(mask, cards.len() as int) ==> (#[trigger] hand_of(cards, mask)).at_most(best)
}

/// The best five-card hand among the cards, whatever their order.
pub open spec fn best_hand(cards: Seq<Card>) -> Hand {
    choose|best: Hand| is_best_hand(descending(cards), best)
}

/// The weakest hand that five cards can form: seven high, with no run.
pub open spec fn weakest_hand() -> Hand {
    Hand::HiCard(
        HiCardStr { ranks: [Rank::Seven, Rank::Five, Rank::Four, Rank::Three, Rank::Two] },
    )
}

/// How many of the first `upto` cards have the given rank.
pub open spec fn ranks_in(cards: Seq<Card>, rank: Rank, upto: int) -> int
    decreases upto,
{
    if upto <= 0 {
        0
    } else {
        ranks_in(cards, rank, upto - 1) + if cards[upto - 1].rank == rank {
            1int
        } else {
            0int
        }
    }
}

/// The place `at` holds the `k`-th set flag of the mask, counting from zero.
pub open spec fn holds_place(mask: Seq<bool>, at: int, k: int) -> bool {
    mask[at] && count_true(mask, at) == k
}

/// The `k`-th chosen card among the first `upto` is the card at the place of
/// the `k`-th set flag.
pub open spec fn chosen_from_place(cards: Seq<Card>, mask: Seq<bool>, upto: int, k: int) -> bool {
    exists|at: int|
        0 <= at < upto && #[trigger] holds_place(mask, at, k) && chosen(cards, mask, upto)[k]
            == cards[at]
}

/// Counting the cards of a rank place by place gives `rank_count`.
pub proof fn lemma_rank_count(cards: Seq<Card>, rank: Rank, upto: int)
    requires
        0 <= upto <= cards.len(),
    ensures
        ranks_in(cards, rank, upto) == rank_count(cards.take(upto), rank),
    decreases upto,
{
    broadcast use vstd::multiset::group_multiset_axioms;

    if upto == 0 {
        assert(cards.take(0) =~= Seq::<Card>::empty());
        assert(cards.take(0).to_multiset() =~= vstd::multiset::Multiset::<Card>::empty()) by {
            broadcast use vstd::seq_lib::group_to_multiset_ensures;

        }
    } else {
        lemma_rank_count(cards, rank, upto - 1);
        let last = cards[upto - 1];
        assert(cards.take(upto) =~= cards.take(upto - 1).push(last));
        to_multiset_build(cards.take(upto - 1), last);
        last.suit.lemma_value_round_trip();
    }
}

/// Cards that are pairwise distinct hold no rank more than four times.
pub proof fn lemma_distinct_cards_no_five_alike(cards: Seq<Card>)
    requires
        cards.no_duplicates(),
    ensures
        no_five_alike(cards),
{
    cards.lemma_multiset_has_no_duplicates();
}

/// Among cards in descending order that hold no rank five times, a card
/// and the card four places on differ in rank.
pub proof fn lemma_no_five_in_a_row(cards: Seq<Card>, at: int)
    requires
        no_five_alike(cards),
        forall|i: int, j: int|
            0 <= i <= j < cards.len() ==> (#[trigger] cards[i]).rank.value() >= (
            #[trigger] cards[j]).rank.value(),
        0 <= at,
        at + 4 < cards.len(),
    ensures
        cards[at].rank != cards[at + 4].rank,
{
    let rank = cards[at].rank;
    if cards[at + 4].rank == rank {
        assert forall|i: int| at <= i <= at + 4 implies (#[trigger] cards[i]).rank == rank by {
            assert(cards[at].rank.value() >= cards[i].rank.value());
            assert(cards[i].rank.value() >= cards[at + 4].rank.value());
            Rank::lemma_value_injective(cards[i].rank, rank);
        }
        lemma_ranks_in_monotone(cards, rank, 0, at);
        assert(ranks_in(cards, rank, at + 5) >= 5) by {
            reveal_with_fuel(ranks_in, 6);
            assert(cards[at + 1].rank == rank);
            assert(cards[at + 2].rank == rank);
            assert(cards[at + 3].rank == rank);
        }
        lemma_ranks_in_monotone(cards, rank, at + 5, cards.len() as int);
        lemma_rank_count(cards, rank, cards.len() as int);
        assert(cards.take(cards.len() as int) =~= cards);
        assert(rank_count(cards, rank) <= 4);
    }
}

/// Counting further never counts fewer cards of a rank.
pub proof fn lemma_ranks_in_monotone(cards: Seq<Card>, rank: Rank, from: int, upto: int)
    requires
        from <= upto,
    ensures
        ranks_in(cards, rank, from) <= ranks_in(cards, rank, upto),
        0 <= ranks_in(cards, rank, upto),
    decreases upto,
{
    if upto > 0 {
        if from < upto {
            lemma_ranks_in_monotone(cards, rank, from, upto - 1);
        } else {
            lemma_ranks_in_monotone(cards, rank, upto - 1, upto - 1);
        }
    }
}

/// Each chosen card is the card at the place of the set flag that it
/// belongs to.
pub proof fn lemma_chosen_places(cards: Seq<Card>, mask: Seq<bool>, upto: int)
    requires
        0 <= upto <= mask.len(),
    ensures
        chosen(cards, mask, upto).len() == count_true(mask, upto),
        forall|k: int|
            0 <= k < count_true(mask, upto) ==> #[trigger] chosen_from_place(cards, mask, upto, k),
    decreases upto,
{
    lemma_chosen_len(cards, mask, upto);
    if upto > 0 {
        lemma_chosen_places(cards, mask, upto - 1);
        lemma_chosen_len(cards, mask, upto - 1);
        let below = chosen(cards, mask, upto - 1);
        let now = chosen(cards, mask, upto);
        assert forall|k: int| 0 <= k < count_true(mask, upto) implies #[trigger] chosen_from_place(
            cards,
            mask,
            upto,
            k,
        ) by {
            if k < below.len() {
                assert(chosen_from_place(cards, mask, upto - 1, k));
                let at = choose|at: int|
                    0 <= at < upto - 1 && #[trigger] holds_place(mask, at, k) && below[k]
                        == cards[at];
                assert(holds_place(mask, at, k) && now[k] == cards[at]);
            } else {
                assert(holds_place(mask, upto - 1, k) && now[k] == cards[upto - 1]);
            }
        }
    }
}

/// Set flags that come later in the count stand at later places, at least
/// as far apart as their counts are.
pub proof fn lemma_places_apart(mask: Seq<bool>, at: int, k: int, later: int, l: int)
    requires
        0 <= at,
        0 <= later,
        holds_place(mask, at, k),
        holds_place(mask, later, l),
        k < l,
    ensures
        at + (l - k) <= later,
{
    if later < at {
        lemma_count_monotone(mask, later, at);
    } else {
        lemma_count_spread(mask, at, later);
    }
}

/// Between two places the count grows by no more than their distance.
pub proof fn lemma_count_spread(mask: Seq<bool>, from: int, upto: int)
    requires
        0 <= from <= upto,
    ensures
        count_true(mask, upto) - count_true(mask, from) <= upto - from,
    decreases upto - from,
{
    if from < upto {
        lemma_count_spread(mask, from, upto - 1);
    }
}

/// Five cards selected from cards in descending order that hold no rank five
/// times are themselves in descending order and not all of one rank.
pub proof fn lemma_selected_is_sorted_five(cards: Seq<Card>, mask: Seq<bool>)
    requires
        no_five_alike(cards),
        forall|i: int, j: int|
            0 <= i <= j < cards.len() ==> (#[trigger] cards[i]).rank.value() >= (
            #[trigger] cards[j]).rank.value(),
        is_choice(mask, cards.len() as int),
    ensures
        sorted_five(selected(cards, mask)),
        !five_alike(selected(cards, mask)),
{
    let n = cards.len() as int;
    let five = selected(cards, mask);
    lemma_chosen_places(cards, mask, n);
    assert(chosen_from_place(cards, mask, n, 0));
    assert(chosen_from_place(cards, mask, n, 1));
    assert(chosen_from_place(cards, mask, n, 2));
    assert(chosen_from_place(cards, mask, n, 3));
    assert(chosen_from_place(cards, mask, n, 4));
    let place0 = choose|at: int|
        0 <= at < n && #[trigger] holds_place(mask, at, 0) && five[0] == cards[at];
    let place1 = choose|at: int|
        0 <= at < n && #[trigger] holds_place(mask, at, 1) && five[1] == cards[at];
    let place2 = choose|at: int|
        0 <= at < n && #[trigger] holds_place(mask, at, 2) && five[2] == cards[at];
    let place3 = choose|at: int|
        0 <= at < n && #[trigger] holds_place(mask, at, 3) && five[3] == cards[at];
    let place4 = choose|at: int|
        0 <= at < n && #[trigger] holds_place(mask, at, 4) && five[4] == cards[at];
    lemma_places_apart(mask, place0, 0, place1, 1);
    lemma_places_apart(mask, place1, 1, place2, 2);
    lemma_places_apart(mask, place2, 2, place3, 3);
    lemma_places_apart(mask, place3, 3, place4, 4);
    lemma_places_apart(mask, place0, 0, place4, 4);
    assert(cards[place0].rank.value() >= cards[place1].rank.value());
    assert(cards[place1].rank.value() >= cards[place2].rank.value());
    assert(cards[place2].rank.value() >= cards[place3].rank.value());
    assert(cards[place3].rank.value() >= cards[place4].rank.value());
    if five_alike(five) {
        lemma_no_five_in_a_row(cards, place0);
        assert(cards[place0].rank.value() >= cards[place0 + 4].rank.value());
        assert(cards[place0 + 4].rank.value() >= cards[place4].rank.value());
        Rank::lemma_value_injective(cards[place0].rank, cards[place0 + 4].rank);
    }
}

/// The best hand does not depend on the order in which the cards are given.
pub proof fn lemma_best_hand_any_order(a: Seq<Card>, b: Seq<Card>)
    requires
        a.to_multiset() == b.to_multiset(),
    ensures
        best_hand(a) == best_hand(b),
{
    lemma_descending_any_order(a, b);
}

/// Five cards selected from distinct cards are distinct.
pub proof fn lemma_selected_is_distinct(cards: Seq<Card>, mask: Seq<bool>)
    requires
        cards.no_duplicates(),
        is_choice(mask, cards.len() as int),
    ensures
        selected(cards, mask).no_duplicates(),
{
    let n = cards.len() as int;
    let five = selected(cards, mask);
    lemma_chosen_places(cards, mask, n);
    assert forall|i: int, j: int| 0 <= i < j < five.len() implies five[i] != five[j] by {
        assert(chosen_from_place(cards, mask, n, i));
        assert(chosen_from_place(cards, mask, n, j));
        let p = choose|at: int|
            0 <= at < n && #[trigger] holds_place(mask, at, i) && five[i] == cards[at];
        let q = choose|at: int|
            0 <= at < n && #[trigger] holds_place(mask, at, j) && five[j] == cards[at];
        lemma_places_apart(mask, p, i, q, j);
    }
}

/// The cards in descending order are distinct if the cards are.
pub proof fn lemma_descending_is_distinct(cards: Seq<Card>)
    requires
        cards.no_duplicates(),
    ensures
        descending(cards).no_duplicates(),
{
    lemma_descending(cards);
    cards.lemma_multiset_has_no_duplicates();
    descending(cards).lemma_multiset_has_no_duplicates_conv();
}

/// No five cards in descending order, not all of one rank, form a hand
/// below the weakest hand.
pub proof fn lemma_weakest_hand(cards: Seq<Card>)
    requires
        sorted_five(cards),
        !five_alike(cards),
    ensures
        weakest_hand().at_most(classify(cards)),
{
    let hand = classify(cards);
    if hand.category() == 0 {
        reveal_with_fuel(crate::hand_builder::scan_pairs, 6);
        reveal_with_fuel(crate::hand_builder::neighbour_pairs, 5);
        assert(cards[0].rank.value() > cards[1].rank.value());
        assert(cards[1].rank.value() > cards[2].rank.value());
        assert(cards[2].rank.value() > cards[3].rank.value());
        assert(cards[3].rank.value() > cards[4].rank.value());
        assert(!crate::hand_builder::is_run(cards, 1));
        if cards[0].rank.value() == 4 {
            assert(crate::hand_builder::steps_down(cards, 1));
            assert(crate::hand_builder::steps_down(cards, 2));
            assert(crate::hand_builder::steps_down(cards, 3));
            assert(crate::hand_builder::steps_down(cards, 4));
        }
        let low = weakest_hand().tiebreak();
        let got = hand.tiebreak();
        assert(low[0] == Rank::Seven && low[1] == Rank::Five && low[2] == Rank::Four && low[3]
            == Rank::Three && low[4] == Rank::Two);
        assert(got[0] == cards[0].rank && got[1] == cards[1].rank && got[2] == cards[2].rank
            && got[3] == cards[3].rank && got[4] == cards[4].rank);
        reveal_with_fuel(crate::hand::lex_sign_at, 6);
    }
}

/// A mask over five things that selects five selects them all.
pub proof fn lemma_choice_of_five(cards: Seq<Card>, mask: Seq<bool>)
    requires
        cards.len() == 5,
        is_choice(mask, 5),
    ensures
        selected(cards, mask) == cards,
{
    reveal_with_fuel(count_true, 6);
    reveal_with_fuel(chosen, 6);
    assert(selected(cards, mask) =~= cards);
}

/// The best hand among some cards is one hand and no other.
pub proof fn lemma_best_hand_unique(cards: Seq<Card>, a: Hand, b: Hand)
    requires
        is_best_hand(cards, a),
        is_best_hand(cards, b),
    ensures
        a == b,
{
    lemma_order_antisymmetric(a, b);
}

impl Hand {
    /// Picks out the best five-card hand among five or more cards, in any
    /// order.
    pub fn best_hand_of(cards: &[Card]) -> (best: Hand)
        requires
            cards.len() >= 5,
            no_five_alike(cards@),
        ensures
            is_best_hand(descending(cards@), best),
            best == best_hand(cards@),
            cards.len() == 5 ==> best == classify(descending(cards@)),
            cards@.no_duplicates() ==> best.wf(),
    {
        let sorted = sort_descending(cards);
        let ghost n = sorted@.len();
        let ghost total = binomial(n as int, 5);
        proof {
            lemma_descending(cards@);
            lemma_choice_at_end(n);
            assert forall|rank: Rank| #[trigger] rank_count(sorted@, rank) <= 4 by {
                assert(rank_count(cards@, rank) <= 4);
            }
            lemma_choice_at(n, 0);
            lemma_successor(choice_at(n, 0));
        }
        // Any real hand is at least as good as this one.
        let mut best_hand = Hand::HiCard(
            HiCardStr { ranks: [Rank::Seven, Rank::Five, Rank::Four, Rank::Three, Rank::Two] },
        );
        assert(best_hand == weakest_hand()) by {
            assert(best_hand->HiCard_0.ranks =~= weakest_hand()->HiCard_0.ranks);
        }
        let mut subsets = AllFiveCardSubsets::create(sorted.as_slice());
        let ghost mut step: int = 0;
        let ghost mut winner: int = 0;
        let mut next = subsets.next();
        while next.is_some()
            invariant
                n >= 5,
                n == sorted@.len(),
                sorted@ == descending(cards@),
                no_five_alike(sorted@),
                forall|i: int, j: int|
                    0 <= i <= j < sorted@.len() ==> (#[trigger] sorted@[i]).rank.value() >= (
                    #[trigger] sorted@[j]).rank.value(),
                total == binomial(n as int, 5),
                is_blank(choice_at(n, total)),
                subsets.wf(),
                subsets.cards() == sorted@,
                0 <= step <= total,
                step < total ==> next is Some && next->0@ == selected(
                    sorted@,
                    choice_at(n, step),
                ) && subsets.mask() == choice_at(n, step + 1),
                step == total ==> next is None,
                forall|j: int|
                    0 <= j < step ==> (#[trigger] hand_of(sorted@, choice_at(n, j))).at_most(
                        best_hand,
                    ),
                step == 0 ==> best_hand == weakest_hand(),
                step > 0 ==> 0 <= winner < step && best_hand == hand_of(
                    sorted@,
                    choice_at(n, winner),
                ),
            decreases total - step,
        {
            let five_cards = next.unwrap();
            proof {
                lemma_choice_at(n, step);
                lemma_selected_is_sorted_five(sorted@, choice_at(n, step));
                lemma_weakest_hand(five_cards@);
            }
            let this_hand = Hand::get_hand(&five_cards);
            assert(this_hand == hand_of(sorted@, choice_at(n, step)));
            proof {
                lemma_order_total(this_hand, best_hand);
                assert forall|j: int| 0 <= j < step && this_hand.sign(best_hand) > 0 implies (
                #[trigger] hand_of(sorted@, choice_at(n, j))).at_most(this_hand) by {
                    lemma_order_transitive(hand_of(sorted@, choice_at(n, j)), best_hand, this_hand);
                }
                lemma_order_antisymmetric(this_hand, this_hand);
            }
            if this_hand > best_hand {
                best_hand = this_hand;
                proof {
                    winner = step;
                }
            } else {
                proof {
                    if step == 0 {
                        lemma_order_antisymmetric(this_hand, best_hand);
                        winner = 0;
                    }
                }
            }
            proof {
                step = step + 1;
                if step < total {
                    lemma_choice_at(n, step);
                    lemma_successor(choice_at(n, step));
                }
            }
            next = subsets.next();
        }
        proof {
            let all = descending(cards@);
            assert(step == total);
            lemma_choice_at(n, winner);
            assert(is_choice(choice_at(n, winner), n as int) && hand_of(all, choice_at(n, winner))
                == best_hand);
            assert forall|mask: Seq<bool>| is_choice(mask, all.len() as int) implies (
            #[trigger] hand_of(all, mask)).at_most(best_hand) by {
                lemma_every_choice_is_reached(mask, n);
            }
            if cards.len() == 5 {
                lemma_choice_of_five(all, choice_at(n, winner));
            }
            assert(is_best_hand(all, best_hand));
            lemma_best_hand_unique(all, best_hand, self::best_hand(cards@));
            if cards@.no_duplicates() {
                lemma_descending_is_distinct(cards@);
                lemma_selected_is_distinct(all, choice_at(n, winner));
                lemma_selected_is_sorted_five(all, choice_at(n, winner));
                lemma_classify_is_well_formed(selected(all, choice_at(n, winner)));
            }
        }
        best_hand
    }
}

} // verus!
