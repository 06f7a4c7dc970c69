//! Estimating each player's chances by playing out random boards.
//!
//! A trial completes the board with random cards that nobody holds, finds
//! every player's best hand, and records who won with what. Trials are
//! split into shards of nearly equal size, which may run side by side and
//! whose counts are added up at the end.

use crate::best_hand::{best_hand, lemma_distinct_cards_no_five_alike, no_five_alike};
use crate::board::{completes, dealt, hole_cards_of, pick_random_board, BOARD_SIZE};
use crate::cards::Card;
use crate::hand::{Hand, NUM_HANDS};
use crate::shards::{
    get_num_sims_for_thread, lemma_shards_cover_all_trials, lemma_shards_total_grows, shards_total,
};
use crate::stats::{added, counts_in, raised, recorded, EquityAggregate};
use crate::winners::{is_strongest, is_winner_list, pick_winners, strongest_of, winners_of};
use vstd::prelude::*;

verus! {

/// The number of trials worth running: one where the board is full, since
/// then nothing is left to chance.
pub open spec fn effective_trials(initial_board_len: int, requested: int) -> int {
    if initial_board_len == BOARD_SIZE {
        1
    } else {
        requested
    }
}

/// The number of trials worth running: one where the board is full, since
/// then nothing is left to chance.
pub fn effective_num_sims(initial_board_len: usize, requested: u64) -> (sims: u64)
    ensures
        sims == effective_trials(initial_board_len as int, requested as int),
{
    if initial_board_len == BOARD_SIZE {
        1
    } else {
        requested
    }
}

/// The seven cards that a player chooses from: the board and the two hole
/// cards.
pub open spec fn seven_cards(board: Seq<Card>, hole_cards: [Card; 2]) -> Seq<Card> {
    board + hole_cards@
}

/// Each player's best hand on a board.
pub open spec fn player_hands(board: Seq<Card>, all_hole_cards: Seq<[Card; 2]>) -> Seq<Hand> {
    Seq::new(all_hole_cards.len(), |p: int| best_hand(seven_cards(board, all_hole_cards[p])))
}

/// Where the dealt cards are pairwise distinct, so are the seven cards of
/// each player on a completed board; so they hold no rank five times.
pub proof fn lemma_completed_board_is_distinct(
    initial_board: Seq<Card>,
    all_hole_cards: Seq<[Card; 2]>,
    board: Seq<Card>,
    player: int,
)
    requires
        dealt(initial_board, all_hole_cards).no_duplicates(),
        completes(initial_board, all_hole_cards, board),
        0 <= player < all_hole_cards.len(),
    ensures
        seven_cards(board, all_hole_cards[player]).no_duplicates(),
        no_five_alike(seven_cards(board, all_hole_cards[player])),
{
    let all = dealt(initial_board, all_hole_cards);
    let known = initial_board.len() as int;
    let seven = seven_cards(board, all_hole_cards[player]);
    assert forall|i: int, j: int| 0 <= i < j < seven.len() implies seven[i] != seven[j] by {
        if j < 5 {
            if j < known {
                assert(board[i] == initial_board[i] && board[j] == initial_board[j]);
                assert(all[i] == board[i] && all[j] == board[j]);
            }
        } else {
            let at = known + 2 * player + (j - 5);
            assert(all[at] == hole_cards_of(all_hole_cards)[2 * player + (j - 5)]);
            assert(all[at] == seven[j]);
            if i >= 5 {
                assert(all[at - 1] == hole_cards_of(all_hole_cards)[2 * player + (i - 5)]);
                assert(all[at - 1] == seven[i]);
            } else if i < known {
                assert(board[i] == initial_board[i]);
                assert(all[i] == seven[i]);
            } else {
                assert(!all.contains(board[i]));
            }
        }
    }
    lemma_distinct_cards_no_five_alike(seven);
}

/// Plays one board: finds every player's best hand of seven, then the
/// strongest of these hands and the players who hold it.
pub fn simulate_hand(board: &[Card; BOARD_SIZE], all_hole_cards: &[[Card; 2]]) -> (result: (
    Vec<usize>,
    Hand,
))
    requires
        all_hole_cards.len() >= 1,
        forall|p: int|
            0 <= p < all_hole_cards.len() ==> no_five_alike(
                #[trigger] seven_cards(board@, all_hole_cards[p]),
            ),
    ensures
        is_strongest(player_hands(board@, all_hole_cards@), result.1),
        is_winner_list(player_hands(board@, all_hole_cards@), result.1, result.0@),
        result.1 == strongest_of(player_hands(board@, all_hole_cards@)),
        result.0@ == winners_of(player_hands(board@, all_hole_cards@)),
        result.0@.len() >= 1,
{
    let mut hands: Vec<Hand> = Vec::with_capacity(all_hole_cards.len());
    let mut player: usize = 0;
    while player < all_hole_cards.len()
        invariant
            player <= all_hole_cards.len(),
            hands@.len() == player,
            forall|p: int|
                0 <= p < all_hole_cards.len() ==> no_five_alike(
                    #[trigger] seven_cards(board@, all_hole_cards[p]),
                ),
            forall|p: int|
                0 <= p < player ==> #[trigger] hands@[p] == best_hand(
                    seven_cards(board@, all_hole_cards[p]),
                ),
        decreases all_hole_cards.len() - player,
    {
        let hole_cards = all_hole_cards[player];
        let mut cards: Vec<Card> = Vec::with_capacity(BOARD_SIZE + 2);
        cards.push(board[0]);
        cards.push(board[1]);
        cards.push(board[2]);
        cards.push(board[3]);
        cards.push(board[4]);
        cards.push(hole_cards[0]);
        cards.push(hole_cards[1]);
        assert(cards@ =~= seven_cards(board@, all_hole_cards[player as int]));
        let hand = Hand::best_hand_of(cards.as_slice());
        hands.push(hand);
        player += 1;
    }
    assert(hands@ =~= player_hands(board@, all_hole_cards@));
    pick_winners(&hands)
}

/// Some way of completing the board makes these players win together with
/// a hand of this category.
pub open spec fn possible_outcome(
    initial_board: Seq<Card>,
    all_hole_cards: Seq<[Card; 2]>,
    winners: Seq<usize>,
    category: int,
) -> bool {
    exists|board: Seq<Card>|
        completes(initial_board, all_hole_cards, board) && winners == winners_of(
            #[trigger] player_hands(board, all_hole_cards),
        ) && category == strongest_of(player_hands(board, all_hole_cards)).category()
}

/// Every count that differs between the two maps belongs to an outcome
/// that some way of completing the board gives.
pub open spec fn only_possible_outcomes_added(
    initial_board: Seq<Card>,
    all_hole_cards: Seq<[Card; 2]>,
    before: Map<Seq<usize>, Seq<u64>>,
    after: Map<Seq<usize>, Seq<u64>>,
) -> bool {
    forall|winners: Seq<usize>, category: int|
        0 <= category < NUM_HANDS && (#[trigger] counts_in(after, winners)[category]) != counts_in(
            before,
            winners,
        )[category] ==> possible_outcome(initial_board, all_hole_cards, winners, category)
}

/// Runs up to `num_sims` trials and records each in `outcomes`. Returns
/// the number of trials run; it stops short only where a board could not be
/// completed, which does not happen where the board is full from the start.
/// On a full board every trial ends in the same outcome.
pub fn simulate_hands(
    num_sims: u64,
    initial_board: &[Card],
    all_hole_cards: &[[Card; 2]],
    outcomes: &mut EquityAggregate,
) -> (completed: u64)
    requires
        initial_board.len() <= BOARD_SIZE,
        all_hole_cards.len() >= 1,
        dealt(initial_board@, all_hole_cards@).no_duplicates(),
        old(outcomes).wf(),
        old(outcomes).total() + num_sims <= u64::MAX,
    ensures
        final(outcomes).wf(),
        completed <= num_sims,
        final(outcomes).total() == old(outcomes).total() + completed,
        completed == 0 ==> final(outcomes)@ == old(outcomes)@,
        only_possible_outcomes_added(
            initial_board@,
            all_hole_cards@,
            old(outcomes)@,
            final(outcomes)@,
        ),
        initial_board.len() == BOARD_SIZE ==> completed == num_sims && final(outcomes)@ == recorded(
            old(outcomes)@,
            winners_of(player_hands(initial_board@, all_hole_cards@)),
            strongest_of(player_hands(initial_board@, all_hole_cards@)).category(),
            num_sims as int,
        ),
{
    let mut completed: u64 = 0;
    let ghost sure_hands = player_hands(initial_board@, all_hole_cards@);
    while completed < num_sims
        invariant
            completed <= num_sims,
            initial_board.len() <= BOARD_SIZE,
            all_hole_cards.len() >= 1,
            dealt(initial_board@, all_hole_cards@).no_duplicates(),
            outcomes.wf(),
            outcomes.total() == old(outcomes).total() + completed,
            old(outcomes).wf(),
            old(outcomes).total() + num_sims <= u64::MAX,
            completed == 0 ==> outcomes@ == old(outcomes)@,
            only_possible_outcomes_added(
                initial_board@,
                all_hole_cards@,
                old(outcomes)@,
                outcomes@,
            ),
            sure_hands == player_hands(initial_board@, all_hole_cards@),
            initial_board.len() == BOARD_SIZE ==> outcomes@ == recorded(
                old(outcomes)@,
                winners_of(sure_hands),
                strongest_of(sure_hands).category(),
                completed as int,
            ),
        decreases num_sims - completed,
    {
        let board = match pick_random_board(initial_board, all_hole_cards) {
            Some(board) => board,
            None => {
                return completed;
            },
        };
        proof {
            assert forall|p: int| 0 <= p < all_hole_cards.len() implies no_five_alike(
                #[trigger] seven_cards(board@, all_hole_cards[p]),
            ) by {
                lemma_completed_board_is_distinct(initial_board@, all_hole_cards@, board@, p);
            }
        }
        let (winners, best_hand) = simulate_hand(&board, all_hole_cards);
        let ghost before = outcomes@;
        let ghost category = best_hand.category();
        proof {
            outcomes.lemma_counts_within_total(winners@, category);
        }
        outcomes.record(&winners, &best_hand);
        proof {
            let hands = player_hands(board@, all_hole_cards@);
            assert(possible_outcome(initial_board@, all_hole_cards@, winners@, category));
            assert forall|list: Seq<usize>, c: int|
                0 <= c < NUM_HANDS && (#[trigger] counts_in(outcomes@, list)[c]) != counts_in(
                    old(outcomes)@,
                    list,
                )[c] implies possible_outcome(initial_board@, all_hole_cards@, list, c) by {
                if list != winners@ || c != category {
                    assert(counts_in(outcomes@, list)[c] == counts_in(before, list)[c]);
                    assert(counts_in(before, list)[c] != counts_in(old(outcomes)@, list)[c]);
                }
            }
            if initial_board.len() == BOARD_SIZE {
                assert(board@ =~= initial_board@);
                old(outcomes).lemma_counts_within_total(winners@, category);
                let start = counts_in(old(outcomes)@, winners@);
                if completed > 0 {
                    assert(raised(raised(start, category, completed as int), category, 1)
                        =~= raised(start, category, completed + 1));
                    assert(outcomes@ =~= recorded(
                        old(outcomes)@,
                        winners@,
                        category,
                        completed + 1,
                    ));
                } else {
                    assert(outcomes@ =~= recorded(old(outcomes)@, winners@, category, 1));
                }
            }
        }
        completed += 1;
    }
    completed
}

/// Runs the trials shard by shard, one shard after the other, and adds up
/// what the shards counted. A full board is played once, however many
/// trials are asked for. Returns the counts and the number of trials run,
/// which falls short of the trials due only where a board could not be
/// completed.
pub fn run_simulation(
    total_num_sims: u64,
    num_shards: u64,
    initial_board: &[Card],
    all_hole_cards: &[[Card; 2]],
) -> (result: (EquityAggregate, u64))
    requires
        num_shards >= 1,
        initial_board.len() <= BOARD_SIZE,
        all_hole_cards.len() >= 1,
        dealt(initial_board@, all_hole_cards@).no_duplicates(),
    ensures
        result.0.wf(),
        result.0.total() == result.1,
        result.1 <= effective_trials(initial_board.len() as int, total_num_sims as int),
        only_possible_outcomes_added(
            initial_board@,
            all_hole_cards@,
            Map::<Seq<usize>, Seq<u64>>::empty(),
            result.0@,
        ),
        initial_board.len() == BOARD_SIZE ==> result.1 == 1 && result.0@ == recorded(
            Map::<Seq<usize>, Seq<u64>>::empty(),
            winners_of(player_hands(initial_board@, all_hole_cards@)),
            strongest_of(player_hands(initial_board@, all_hole_cards@)).category(),
            1,
        ),
{
    let num_sims = effective_num_sims(initial_board.len(), total_num_sims);
    let mut outcomes = EquityAggregate::new();
    let mut completed: u64 = 0;
    let mut shard: u64 = 0;
    let ghost nothing = Map::<Seq<usize>, Seq<u64>>::empty();
    let ghost sure_winners = winners_of(player_hands(initial_board@, all_hole_cards@));
    let ghost sure_category = strongest_of(
        player_hands(initial_board@, all_hole_cards@),
    ).category();
    while shard < num_shards
        invariant
            shard <= num_shards,
            initial_board.len() <= BOARD_SIZE,
            all_hole_cards.len() >= 1,
            dealt(initial_board@, all_hole_cards@).no_duplicates(),
            initial_board.len() == BOARD_SIZE ==> num_sims == 1,
            nothing == Map::<Seq<usize>, Seq<u64>>::empty(),
            sure_winners == winners_of(player_hands(initial_board@, all_hole_cards@)),
            sure_category == strongest_of(
                player_hands(initial_board@, all_hole_cards@),
            ).category(),
            outcomes.wf(),
            outcomes.total() == completed,
            completed <= shards_total(num_sims as int, num_shards as int, shard as int),
            only_possible_outcomes_added(initial_board@, all_hole_cards@, nothing, outcomes@),
            initial_board.len() == BOARD_SIZE ==> completed == shards_total(
                num_sims as int,
                num_shards as int,
                shard as int,
            ) && outcomes@ == recorded(nothing, sure_winners, sure_category, completed as int),
        decreases num_shards - shard,
    {
        proof {
            lemma_shards_cover_all_trials(num_sims as int, num_shards as int);
            lemma_shards_total_grows(
                num_sims as int,
                num_shards as int,
                shard + 1,
                num_shards as int,
            );
        }
        let shard_sims = get_num_sims_for_thread(num_sims, num_shards, shard);
        let mut shard_outcomes = EquityAggregate::new();
        let shard_completed = simulate_hands(
            shard_sims,
            initial_board,
            all_hole_cards,
            &mut shard_outcomes,
        );
        let ghost prior = outcomes;
        outcomes.merge(&shard_outcomes);
        proof {
            assert forall|list: Seq<usize>, c: int|
                0 <= c < NUM_HANDS && (#[trigger] counts_in(outcomes@, list)[c]) != counts_in(
                    nothing,
                    list,
                )[c] implies possible_outcome(initial_board@, all_hole_cards@, list, c) by {
                assert(outcomes.counts(list) == added(
                    prior.counts(list),
                    shard_outcomes.counts(list),
                ));
                if counts_in(prior@, list)[c] == 0 {
                    assert(counts_in(shard_outcomes@, list)[c] != counts_in(nothing, list)[c]);
                }
            }
            if initial_board.len() == BOARD_SIZE {
                let trials = completed + shard_completed;
                let done = recorded(nothing, sure_winners, sure_category, trials);
                assert(outcomes@.dom() =~= done.dom());
                assert forall|list: Seq<usize>|
                    outcomes@.dom().contains(list) implies #[trigger] outcomes@[list]
                    == done[list] by {
                    assert(outcomes.counts(list) == added(
                        prior.counts(list),
                        shard_outcomes.counts(list),
                    ));
                    prior.lemma_counts_within_total(list, 0);
                    shard_outcomes.lemma_counts_within_total(list, 0);
                    assert(outcomes.counts(list) =~= done[list]);
                }
                assert(outcomes@ =~= done);
            }
        }
        completed += shard_completed;
        shard += 1;
    }
    proof {
        lemma_shards_cover_all_trials(num_sims as int, num_shards as int);
    }
    (outcomes, completed)
}

} // verus!
