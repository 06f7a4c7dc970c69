//! Sorting cards into descending order.

use crate::cards::Card;
use vstd::prelude::*;
use vstd::relations::{sorted_by, total_ordering};
use vstd::seq_lib::{lemma_sorted_unique, to_multiset_build, to_multiset_insert, to_multiset_len};

verus! {

/// The card order, turned high first: `a` stands before `b` when it is the
/// same card or a greater one.
pub open spec fn card_order() -> spec_fn(Card, Card) -> bool {
    |a: Card, b: Card| a.order_key() >= b.order_key()
}

/// The cards in descending order: by rank, and by suit within a rank.
pub open spec fn descending(cards: Seq<Card>) -> Seq<Card> {
    cards.sort_by(card_order())
}

/// The card order is a total order.
pub proof fn lemma_card_order_total()
    ensures
        total_ordering(card_order()),
{
    let leq = card_order();
    assert forall|a: Card, b: Card| #[trigger] leq(a, b) && #[trigger] leq(b, a) implies a == b by {
        Card::lemma_order_key_injective(a, b);
    }
    assert forall|a: Card| #[trigger] leq(a, a) by {}
    assert forall|a: Card, b: Card| #[trigger] leq(a, b) || #[trigger] leq(b, a) by {}
    assert forall|a: Card, b: Card, c: Card| #[trigger]
        leq(a, b) && #[trigger] leq(b, c) implies leq(a, c) by {}
}

/// What `descending` gives: the same cards, each as often as before, in the
/// one arrangement that is sorted high first.
pub proof fn lemma_descending(cards: Seq<Card>)
    ensures
        descending(cards).to_multiset() == cards.to_multiset(),
        descending(cards).len() == cards.len(),
        sorted_by(descending(cards), card_order()),
        forall|i: int, j: int|
            0 <= i <= j < cards.len() ==> (#[trigger] descending(cards)[i]).rank.value() >= (
            #[trigger] descending(cards)[j]).rank.value(),
{
    lemma_card_order_total();
    cards.lemma_sort_by_ensures(card_order());
    let sorted = descending(cards);
    assert(sorted.len() == cards.len()) by {
        to_multiset_len(sorted);
        to_multiset_len(cards);
    }
    assert forall|i: int, j: int| 0 <= i <= j < cards.len() implies (
    #[trigger] sorted[i]).rank.value() >= (#[trigger] sorted[j]).rank.value() by {
        if i < j {
            assert(card_order()(sorted[i], sorted[j]));
            sorted[i].rank.lemma_value_round_trip();
            sorted[j].rank.lemma_value_round_trip();
            sorted[i].suit.lemma_value_round_trip();
            sorted[j].suit.lemma_value_round_trip();
        }
    }
}

/// Cards that differ in their order only are the same in descending order.
pub proof fn lemma_descending_any_order(a: Seq<Card>, b: Seq<Card>)
    requires
        a.to_multiset() == b.to_multiset(),
    ensures
        descending(a) == descending(b),
{
    lemma_card_order_total();
    a.lemma_sort_by_ensures(card_order());
    b.lemma_sort_by_ensures(card_order());
    lemma_sorted_unique(descending(a), descending(b), card_order());
}

/// Sorts a copy of the cards into descending order.
pub fn sort_descending(cards: &[Card]) -> (sorted: Vec<Card>)
    ensures
        sorted@ == descending(cards@),
{
    let mut sorted: Vec<Card> = Vec::with_capacity(cards.len());
    let mut taken: usize = 0;
    assert(cards@.take(0) =~= Seq::<Card>::empty());
    while taken < cards.len()
        invariant
            taken <= cards.len(),
            sorted.len() == taken,
            sorted_by(sorted@, card_order()),
            sorted@.to_multiset() == cards@.take(taken as int).to_multiset(),
        decreases cards.len() - taken,
    {
        let card = cards[taken];
        let key = card.sort_key();
        let mut at: usize = 0;
        while at < sorted.len() && sorted[at].sort_key() >= key
            invariant
                at <= sorted.len(),
                key == card.order_key(),
                forall|i: int| 0 <= i < at ==> (#[trigger] sorted[i]).order_key() >= key,
            decreases sorted.len() - at,
        {
            at += 1;
        }
        let ghost before = sorted@;
        sorted.insert(at, card);
        proof {
            to_multiset_insert(before, at as int, card);
            to_multiset_build(cards@.take(taken as int), card);
            assert(cards@.take(taken + 1) =~= cards@.take(taken as int).push(card));
            assert forall|i: int, j: int| 0 <= i < j < sorted.len() implies #[trigger] card_order()(
                sorted[i],
                sorted[j],
            ) by {
                if i < at && j > at {
                    assert(card_order()(before[i], before[j - 1]));
                } else if i < at && j < at {
                    assert(card_order()(before[i], before[j]));
                } else if i > at {
                    assert(card_order()(before[i - 1], before[j - 1]));
                } else if i == at {
                    assert(card_order()(before[at as int], before[j - 1]));
                }
            }
        }
        taken += 1;
    }
    proof {
        assert(cards@.take(taken as int) =~= cards@);
        lemma_card_order_total();
        cards@.lemma_sort_by_ensures(card_order());
        lemma_sorted_unique(sorted@, descending(cards@), card_order());
    }
    sorted
}

} // verus!
