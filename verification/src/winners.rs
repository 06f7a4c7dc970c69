//! Finding the winners among the players' hands.

use crate::hand::{lemma_order_antisymmetric, lemma_order_total, lemma_order_transitive, Hand};
use vstd::prelude::*;

verus! {

/// `best` is one of the hands, and none of them is stronger.
pub open spec fn is_strongest(hands: Seq<Hand>, best: Hand) -> bool {
    &&& exists|p: int| 0 <= p < hands.len() && #[trigger] hands[p] == best
    &&& forall|p: int| 0 <= p < hands.len() ==> (#[trigger] hands[p]).at_most(best)
}

/// `winners` lists, in ascending order, exactly the players who hold
/// `best`.
pub open spec fn is_winner_list(hands: Seq<Hand>, best: Hand, winners: Seq<usize>) -> bool {
    &&& forall|i: int, j: int| 0 <= i < j < winners.len() ==> winners[i] < winners[j]
    &&& forall|i: int|
        0 <= i < winners.len() ==> (#[trigger] winners[i]) < hands.len() && hands[winners[i] as int]
            == best
    &&& forall|p: int|
        0 <= p < hands.len() && #[trigger] hands[p] == best ==> exists|i: int|
            0 <= i < winners.len() && #[trigger] winners[i] == p
}

/// The strongest of the hands.
pub open spec fn strongest_of(hands: Seq<Hand>) -> Hand {
    choose|best: Hand| is_strongest(hands, best)
}

/// The players who hold the strongest of the hands, in ascending order.
pub open spec fn winners_of(hands: Seq<Hand>) -> Seq<usize> {
    choose|winners: Seq<usize>| is_winner_list(hands, strongest_of(hands), winners)
}

/// Two ascending lists with the same members are the same list.
pub proof fn lemma_ascending_lists_equal(a: Seq<usize>, b: Seq<usize>)
    requires
        forall|i: int, j: int| 0 <= i < j < a.len() ==> a[i] < a[j],
        forall|i: int, j: int| 0 <= i < j < b.len() ==> b[i] < b[j],
        forall|i: int| 0 <= i < a.len() ==> b.contains(#[trigger] a[i]),
        forall|j: int| 0 <= j < b.len() ==> a.contains(#[trigger] b[j]),
    ensures
        a == b,
    decreases a.len(),
{
    if a.len() == 0 {
        if b.len() > 0 {
            assert(a.contains(b[0]));
        }
        assert(a =~= b);
    } else {
        let top = a.len() - 1;
        assert(b.contains(a[top]));
        let j_top = choose|j: int| 0 <= j < b.len() && b[j] == a[top];
        let last = b.len() - 1;
        assert(a.contains(b[last]));
        let i_last = choose|i: int| 0 <= i < a.len() && a[i] == b[last];
        assert(a[top] == b[last]) by {
            if j_top < last {
                assert(b[j_top] < b[last]);
            }
            if i_last < top {
                assert(a[i_last] < a[top]);
            }
        }
        let a0 = a.drop_last();
        let b0 = b.drop_last();
        assert forall|i: int| 0 <= i < a0.len() implies b0.contains(#[trigger] a0[i]) by {
            assert(b.contains(a[i]));
            let j = choose|j: int| 0 <= j < b.len() && b[j] == a[i];
            assert(a[i] < a[top]);
            assert(b0[j] == a0[i]);
        }
        assert forall|j: int| 0 <= j < b0.len() implies a0.contains(#[trigger] b0[j]) by {
            assert(a.contains(b[j]));
            let i = choose|i: int| 0 <= i < a.len() && a[i] == b[j];
            assert(b[j] < b[last]);
            assert(a0[i] == b0[j]);
        }
        lemma_ascending_lists_equal(a0, b0);
        assert(a =~= a0.push(a[top]));
        assert(b =~= b0.push(b[last]));
    }
}

/// The strongest hand and the list of those who hold it are what they are:
/// no other hand and no other list fit.
pub proof fn lemma_winners_unique(hands: Seq<Hand>, best: Hand, winners: Seq<usize>)
    requires
        is_strongest(hands, best),
        is_winner_list(hands, best, winners),
    ensures
        best == strongest_of(hands),
        winners == winners_of(hands),
{
    let other = strongest_of(hands);
    assert(is_strongest(hands, other));
    lemma_order_antisymmetric(best, other);
    let p = choose|p: int| 0 <= p < hands.len() && #[trigger] hands[p] == best;
    let q = choose|q: int| 0 <= q < hands.len() && #[trigger] hands[q] == other;
    assert(hands[p].at_most(other));
    assert(hands[q].at_most(best));
    let list = winners_of(hands);
    assert(is_winner_list(hands, best, list));
    assert forall|i: int| 0 <= i < winners.len() implies list.contains(#[trigger] winners[i]) by {
        let at = winners[i] as int;
        assert(hands[at] == best);
        let j = choose|j: int| 0 <= j < list.len() && #[trigger] list[j] == at;
        assert(list[j] == winners[i]);
    }
    assert forall|j: int| 0 <= j < list.len() implies winners.contains(#[trigger] list[j]) by {
        let at = list[j] as int;
        assert(hands[at] == best);
        let i = choose|i: int| 0 <= i < winners.len() && #[trigger] winners[i] == at;
        assert(winners[i] == list[j]);
    }
    lemma_ascending_lists_equal(winners, list);
}

/// Finds the strongest hand and the players who hold it. A player wins
/// alone with a hand stronger than all others; players with equal hands
/// that no one beats win together.
pub fn pick_winners(hands: &Vec<Hand>) -> (result: (Vec<usize>, Hand))
    requires
        hands.len() >= 1,
    ensures
        is_strongest(hands@, result.1),
        is_winner_list(hands@, result.1, result.0@),
        result.1 == strongest_of(hands@),
        result.0@ == winners_of(hands@),
        result.0@.len() >= 1,
{
    let mut winners: Vec<usize> = Vec::new();
    winners.push(0);
    let mut best_hand = hands[0];
    let mut index: usize = 1;
    proof {
        let first = hands@.take(1);
        lemma_order_antisymmetric(best_hand, best_hand);
        assert(first[0] == best_hand);
        assert(winners@[0] == 0);
    }
    while index < hands.len()
        invariant
            1 <= index <= hands.len(),
            winners@.len() >= 1,
            is_strongest(hands@.take(index as int), best_hand),
            is_winner_list(hands@.take(index as int), best_hand, winners@),
        decreases hands.len() - index,
    {
        let hand = hands[index];
        let ghost seen = hands@.take(index as int);
        let ghost now = hands@.take(index + 1);
        let ghost before = winners@;
        let ghost old_best = best_hand;
        proof {
            lemma_order_total(hand, best_hand);
            lemma_order_antisymmetric(hand, best_hand);
            lemma_order_antisymmetric(hand, hand);
            assert forall|p: int| 0 <= p < index implies now[p] == seen[p] by {}
            assert(now[index as int] == hand);
        }
        if hand == best_hand {
            winners.push(index);
            proof {
                let witness = choose|p: int| 0 <= p < seen.len() && #[trigger] seen[p] == best_hand;
                assert(now[witness] == best_hand);
                assert forall|p: int|
                    0 <= p < now.len() && #[trigger] now[p] == best_hand implies exists|i: int|
                    0 <= i < winners@.len() && #[trigger] winners@[i] == p by {
                    if p < index {
                        assert(seen[p] == best_hand);
                        let i = choose|i: int| 0 <= i < before.len() && #[trigger] before[i] == p;
                        assert(winners@[i] == p);
                    } else {
                        assert(winners@[before.len() as int] == p);
                    }
                }
                assert forall|i: int| 0 <= i < winners@.len() implies (
                #[trigger] winners@[i]) < now.len() && now[winners@[i] as int] == best_hand by {
                    if i < before.len() {
                        assert(before[i] < seen.len());
                    }
                }
                assert forall|i: int, j: int|
                    0 <= i < j < winners@.len() implies winners@[i] < winners@[j] by {
                    if j == before.len() {
                        assert(before[i] < seen.len());
                    }
                }
            }
        } else if hand > best_hand {
            winners.clear();
            winners.push(index);
            best_hand = hand;
            proof {
                assert forall|p: int| 0 <= p < now.len() implies (#[trigger] now[p]).at_most(
                    hand,
                ) by {
                    if p < index {
                        assert(seen[p].at_most(old_best));
                        lemma_order_transitive(seen[p], old_best, hand);
                    }
                }
                assert forall|p: int|
                    0 <= p < now.len() && #[trigger] now[p] == hand implies exists|i: int|
                    0 <= i < winners@.len() && #[trigger] winners@[i] == p by {
                    if p < index {
                        assert(seen[p].at_most(old_best));
                        lemma_order_antisymmetric(hand, old_best);
                    }
                    assert(winners@[0] == index);
                }
            }
        } else {
            proof {
                let witness = choose|p: int| 0 <= p < seen.len() && #[trigger] seen[p] == best_hand;
                assert(now[witness] == best_hand);
                assert forall|p: int|
                    0 <= p < now.len() && #[trigger] now[p] == best_hand implies exists|i: int|
                    0 <= i < winners@.len() && #[trigger] winners@[i] == p by {
                    assert(seen[p] == best_hand);
                }
                assert forall|i: int| 0 <= i < winners@.len() implies (
                #[trigger] winners@[i]) < now.len() && now[winners@[i] as int] == best_hand by {
                    assert(before[i] < seen.len());
                }
            }
        }
        index += 1;
    }
    assert(hands@.take(index as int) =~= hands@);
    proof {
        lemma_winners_unique(hands@, best_hand, winners@);
    }
    (winners, best_hand)
}

} // verus!
