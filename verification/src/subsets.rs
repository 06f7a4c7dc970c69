//! Every five-card subset of a larger set of cards, one at a time.

use crate::binomial::binomial;
use crate::cards::{Card, Rank, Suit};
use crate::combinations::{
    count_true, first_choice, is_blank, is_choice, lemma_count_monotone, lemma_first_choice,
    lemma_lowest_run, lemma_position_bound, lemma_successor, position, successor,
};
use vstd::prelude::*;

verus! {

/// The cards among the first `upto` whose flag is set, in their order.
pub open spec fn chosen(cards: Seq<Card>, mask: Seq<bool>, upto: int) -> Seq<Card>
    decreases upto,
{
    if upto <= 0 {
        Seq::empty()
    } else if mask[upto - 1] {
        chosen(cards, mask, upto - 1).push(cards[upto - 1])
    } else {
        chosen(cards, mask, upto - 1)
    }
}

/// The cards that a mask selects, in their order.
pub open spec fn selected(cards: Seq<Card>, mask: Seq<bool>) -> Seq<Card> {
    chosen(cards, mask, mask.len() as int)
}

/// As many cards are chosen as flags are set.
pub proof fn lemma_chosen_len(cards: Seq<Card>, mask: Seq<bool>, upto: int)
    ensures
        chosen(cards, mask, upto).len() == count_true(mask, upto),
    decreases upto,
{
    if upto > 0 {
        lemma_chosen_len(cards, mask, upto - 1);
    }
}

/// Walks through all five-card subsets of some cards, each exactly once,
/// in the order of `combinations::choice_at`. The walk cannot be restarted:
/// make a new one for each search.
pub struct AllFiveCardSubsets<'a> {
    /// Five or more cards to choose from.
    all_cards: &'a [Card],
    /// Which of the cards make up the next subset. All clear: the walk is
    /// over.
    current_indices: Vec<bool>,
}

impl<'a> AllFiveCardSubsets<'a> {
    /// The cards to choose from.
    pub closed spec fn cards(&self) -> Seq<Card> {
        self.all_cards@
    }

    /// The selection that the next subset is made of; blank when the walk is
    /// over.
    pub closed spec fn mask(&self) -> Seq<bool> {
        self.current_indices@
    }

    /// There is a flag for each card, and five flags are set unless the walk
    /// is over.
    pub open spec fn wf(&self) -> bool {
        &&& self.mask().len() == self.cards().len()
        &&& is_blank(self.mask()) || is_choice(self.mask(), self.cards().len() as int)
    }

    /// How many subsets the walk has yet to hand out.
    pub open spec fn remaining(&self) -> int {
        if is_blank(self.mask()) {
            0
        } else {
            binomial(self.mask().len() as int, 5) - position(
                self.mask(),
                self.mask().len() as int,
            )
        }
    }

    /// Starts a walk at the subset of the first five cards.
    pub fn create(cards: &'a [Card]) -> (subsets: AllFiveCardSubsets<'a>)
        requires
            cards.len() >= 5,
        ensures
            subsets.wf(),
            subsets.cards() == cards@,
            subsets.mask() == first_choice(cards@.len()),
            subsets.remaining() == binomial(cards@.len() as int, 5),
    {
        let current_indices = AllFiveCardSubsets::init_indices(cards.len());
        proof {
            lemma_first_choice(cards@.len());
            lemma_successor(first_choice(cards@.len()));
        }
        AllFiveCardSubsets { all_cards: cards, current_indices }
    }

    /// Flags that select the first five of `total_cards` cards.
    fn init_indices(total_cards: usize) -> (indices: Vec<bool>)
        ensures
            indices@ == first_choice(total_cards as nat),
    {
        let mut indices = vec![true; total_cards];
        let mut index: usize = 5;
        while index < total_cards
            invariant
                5 <= index,
                indices.len() == total_cards,
                forall|i: int| 0 <= i < total_cards ==> indices[i] == (i < 5 || i >= index),
            decreases total_cards - index,
        {
            indices[index] = false;
            index += 1;
        }
        assert(indices@ =~= first_choice(total_cards as nat));
        indices
    }

    /// The cards that the flags select now.
    fn make_next_cards(&self) -> (cards: [Card; 5])
        requires
            self.wf(),
            !is_blank(self.mask()),
        ensures
            cards@ == selected(self.cards(), self.mask()),
    {
        let total_cards = self.all_cards.len();
        // Placeholders, each overwritten below.
        let mut cards = [Card { rank: Rank::Ace, suit: Suit::Spades };5];
        let mut cards_upto: usize = 0;
        let mut index: usize = 0;
        while index < total_cards
            invariant
                index <= total_cards,
                total_cards == self.all_cards.len(),
                total_cards == self.current_indices.len(),
                count_true(self.current_indices@, total_cards as int) == 5,
                cards_upto == count_true(self.current_indices@, index as int),
                cards_upto <= 5,
                chosen(self.all_cards@, self.current_indices@, index as int).len() == cards_upto,
                forall|k: int|
                    0 <= k < cards_upto ==> cards[k] == chosen(
                        self.all_cards@,
                        self.current_indices@,
                        index as int,
                    )[k],
            decreases total_cards - index,
        {
            if self.current_indices[index] {
                proof {
                    lemma_count_monotone(
                        self.current_indices@,
                        index + 1,
                        total_cards as int,
                    );
                }
                cards[cards_upto] = self.all_cards[index];
                cards_upto += 1;
            }
            index += 1;
        }
        assert(cards@ =~= selected(self.cards(), self.mask()));
        cards
    }

    /// Moves the flags on to the next selection: the lowest run of set flags
    /// gives its top flag to the place above and moves the rest down to the
    /// start. After the last selection all flags are cleared.
    fn increment_current_indices(&mut self)
        requires
            old(self).wf(),
            !is_blank(old(self).mask()),
        ensures
            final(self).wf(),
            final(self).cards() == old(self).cards(),
            final(self).mask() == successor(old(self).mask()),
    {
        let ghost before = self.current_indices@;
        let total_indices = self.current_indices.len();
        let mut num_consecutive_trues: usize = 0;
        let mut end_of_trues: Option<usize> = None;
        let mut index: usize = 0;
        while index < total_indices && end_of_trues.is_none()
            invariant
                index <= total_indices,
                total_indices == before.len(),
                self.current_indices@ == before,
                self.all_cards == old(self).all_cards,
                num_consecutive_trues <= index,
                end_of_trues is None ==> {
                    &&& forall|i: int| 0 <= i < index - num_consecutive_trues ==> !before[i]
                    &&& forall|i: int| index - num_consecutive_trues <= i < index ==> before[i]
                },
                end_of_trues is Some ==> {
                    let end = end_of_trues->0;
                    &&& end + 1 == index
                    &&& 0 < num_consecutive_trues <= end
                    &&& !before[end as int]
                    &&& forall|i: int| 0 <= i < end - num_consecutive_trues ==> !before[i]
                    &&& forall|i: int| end - num_consecutive_trues <= i < end ==> before[i]
                },
            decreases total_indices - index + if end_of_trues is None { 1int } else { 0int },
        {
            if self.current_indices[index] {
                num_consecutive_trues += 1;
            } else if num_consecutive_trues > 0 {
                // The first clear flag above the lowest run of set flags.
                end_of_trues = Some(index);
            }
            index += 1;
        }
        proof {
            lemma_successor(before);
        }
        match end_of_trues {
            None => {
                // The set flags are the topmost ones: this was the last subset.
                proof {
                    lemma_lowest_run(
                        before,
                        total_indices - num_consecutive_trues,
                        total_indices as int,
                    );
                }
                self.blank_current_indices();
                assert(self.current_indices@ =~= successor(before));
            },
            Some(end_of_trues_index) => {
                proof {
                    lemma_lowest_run(
                        before,
                        end_of_trues_index - num_consecutive_trues,
                        end_of_trues_index as int,
                    );
                }
                self.current_indices[end_of_trues_index] = true;
                let mut index: usize = 0;
                while index < end_of_trues_index
                    invariant
                        index <= end_of_trues_index < total_indices,
                        0 < num_consecutive_trues,
                        self.current_indices.len() == total_indices,
                        total_indices == before.len(),
                        self.all_cards == old(self).all_cards,
                        forall|i: int|
                            0 <= i < index ==> self.current_indices[i] == (i
                                < num_consecutive_trues - 1),
                        forall|i: int|
                            index <= i < total_indices && i != end_of_trues_index
                                ==> self.current_indices[i] == before[i],
                        self.current_indices[end_of_trues_index as int],
                    decreases end_of_trues_index - index,
                {
                    let early_enough = index < num_consecutive_trues - 1;
                    self.current_indices[index] = early_enough;
                    index += 1;
                }
                assert(self.current_indices@ =~= successor(before));
            },
        }
    }

    /// Whether every subset has been handed out.
    fn no_more_cards(&self) -> (done: bool)
        ensures
            done == is_blank(self.mask()),
    {
        let mut index: usize = 0;
        while index < self.current_indices.len()
            invariant
                index <= self.current_indices.len(),
                forall|i: int| 0 <= i < index ==> !self.current_indices[i],
            decreases self.current_indices.len() - index,
        {
            if self.current_indices[index] {
                return false;
            }
            index += 1;
        }
        true
    }

    /// Clears all flags.
    fn blank_current_indices(&mut self)
        ensures
            final(self).all_cards == old(self).all_cards,
            final(self).current_indices.len() == old(self).current_indices.len(),
            is_blank(final(self).current_indices@),
    {
        let mut index: usize = 0;
        while index < self.current_indices.len()
            invariant
                index <= self.current_indices.len(),
                self.all_cards == old(self).all_cards,
                self.current_indices.len() == old(self).current_indices.len(),
                forall|i: int| 0 <= i < index ==> !self.current_indices[i],
            decreases self.current_indices.len() - index,
        {
            self.current_indices[index] = false;
            index += 1;
        }
    }

    /// Hands out the next subset, its cards in the order of the cards chosen
    /// from, and moves on; `None` once every subset has been handed out.
    pub fn next(&mut self) -> (item: Option<[Card; 5]>)
        requires
            old(self).wf(),
        ensures
            final(self).wf(),
            final(self).cards() == old(self).cards(),
            is_blank(old(self).mask()) ==> item is None && final(self).mask() == old(self).mask(),
            !is_blank(old(self).mask()) ==> item is Some && item->0@ == selected(
                old(self).cards(),
                old(self).mask(),
            ) && final(self).mask() == successor(old(self).mask()),
            item is Some <==> old(self).remaining() > 0,
            item is Some ==> final(self).remaining() == old(self).remaining() - 1,
            item is None ==> final(self).remaining() == 0,
    {
        if self.no_more_cards() {
            return None;
        }
        proof {
            let mask = self.mask();
            lemma_position_bound(mask, mask.len() as int);
            lemma_successor(mask);
        }
        let next_cards = self.make_next_cards();
        self.increment_current_indices();
        Some(next_cards)
    }
}

} // verus!
