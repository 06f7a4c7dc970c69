use poker_odds::cards::Rank::{Ace, Eight, Five, Four, Jack, King, Nine, Queen, Seven, Six, Ten, Three, Two};
use poker_odds::cards::Suit::{Clubs, Diamonds, Hearts, Spades};
use poker_odds::cards::{card, Card};
use poker_odds::hand::{FlushStr, Hand, PairStr, StraightFlushStr, StraightStr};
use poker_odds::board::{contains_code, pick_random_board, BoardDraw, BOARD_SIZE, MAX_DRAWS};
use poker_odds::shards::get_num_sims_for_thread;
use poker_odds::simulation::{effective_num_sims, run_simulation, simulate_hand, simulate_hands};
use poker_odds::winners::pick_winners;
use poker_odds::stats::{
    copy_winners, insert_outcome, same_winners, EquityAggregate, HandStats,
};

fn spade_board() -> [Card; 5] {
    [card(Ace, Spades), card(King, Spades), card(Queen, Spades), card(Jack, Spades), card(Two, Diamonds)]
}

fn two_players() -> [[Card; 2]; 2] {
    [[card(Ten, Spades), card(Three, Clubs)], [card(Ace, Hearts), card(Ace, Diamonds)]]
}

#[test]
fn shards_share_the_trials_evenly() {
    assert_eq!(get_num_sims_for_thread(10, 4, 0), 3);
    assert_eq!(get_num_sims_for_thread(10, 4, 1), 3);
    assert_eq!(get_num_sims_for_thread(10, 4, 2), 2);
    assert_eq!(get_num_sims_for_thread(10, 4, 3), 2);
    assert_eq!(get_num_sims_for_thread(1000, 4, 3), 250);
    assert_eq!(get_num_sims_for_thread(0, 3, 2), 0);
    assert_eq!(get_num_sims_for_thread(7, 1, 0), 7);
    assert_eq!(get_num_sims_for_thread(u64::MAX, 1, 0), u64::MAX);
    for (total, shards) in [(10u64, 4u64), (1000, 7), (5, 8), (0, 2), (12345, 16)].iter() {
        let mut sum = 0;
        let mut least = u64::MAX;
        let mut most = 0;
        for index in 0..*shards {
            let sims = get_num_sims_for_thread(*total, *shards, index);
            sum += sims;
            least = least.min(sims);
            most = most.max(sims);
        }
        assert_eq!(sum, *total);
        assert!(most - least <= 1);
    }
}

#[test]
fn full_board_needs_one_trial() {
    assert_eq!(BOARD_SIZE, 5);
    assert_eq!(effective_num_sims(5, 10_000), 1);
    assert_eq!(effective_num_sims(4, 10_000), 10_000);
    assert_eq!(effective_num_sims(0, 3), 3);
}

#[test]
fn winners_are_all_who_hold_the_strongest_hand() {
    let pair = Hand::Pair(PairStr { rank: Nine, kickers: [King, Jack, Two] });
    let straight = Hand::Straight(StraightStr { hi_rank: Eight });
    let flush = Hand::Flush(FlushStr { ranks: [King, Jack, Ten, Six, Two] });

    assert_eq!(pick_winners(&vec![pair]), (vec![0], pair));
    assert_eq!(pick_winners(&vec![pair, straight, flush]), (vec![2], flush));
    assert_eq!(pick_winners(&vec![flush, straight, pair]), (vec![0], flush));
    assert_eq!(pick_winners(&vec![straight, pair, straight]), (vec![0, 2], straight));
    assert_eq!(pick_winners(&vec![pair, straight, pair, straight, straight]), (vec![1, 3, 4], straight));
    assert_eq!(pick_winners(&vec![pair, pair]), (vec![0, 1], pair));
}

#[test]
fn full_board_gives_one_sure_outcome() {
    let board = spade_board();
    let holes = two_players();
    let (winners, best) = simulate_hand(&board, &holes);
    assert_eq!(winners, vec![0]);
    assert_eq!(best, Hand::StraightFlush(StraightFlushStr { hi_rank: Ace }));

    let mut outcomes = EquityAggregate::new();
    assert_eq!(simulate_hands(1, &board, &holes, &mut outcomes), 1);
    assert_eq!(outcomes.len(), 1);
    assert_eq!(outcomes.total_events(), 1);
    assert_eq!(outcomes.entry(0).winners, vec![0]);
    assert_eq!(outcomes.entry(0).stats.events, [0, 0, 0, 0, 0, 0, 0, 0, 1]);
    assert_eq!(outcomes.get(&vec![0]).unwrap().events[8], 1);
    assert!(outcomes.get(&vec![1]).is_none());

    let mut more = EquityAggregate::new();
    assert_eq!(simulate_hands(25, &board, &holes, &mut more), 25);
    assert_eq!(more.len(), 1);
    assert_eq!(more.get(&vec![0]).unwrap().events, [0, 0, 0, 0, 0, 0, 0, 0, 25]);

    // However many trials are asked for, a full board is played once.
    for (trials, shards) in [(25u64, 3u64), (1, 1), (0, 4), (1000, 16)].iter() {
        let (all, completed) = run_simulation(*trials, *shards, &board, &holes);
        assert_eq!(completed, 1);
        assert_eq!(all.len(), 1);
        assert_eq!(all.total_events(), 1);
        assert_eq!(all.get(&vec![0]).unwrap().events, [0, 0, 0, 0, 0, 0, 0, 0, 1]);
    }
}

#[test]
fn no_trials_count_nothing() {
    let holes = two_players();
    let (none, completed) = run_simulation(0, 3, &[], &holes);
    assert_eq!(completed, 0);
    assert_eq!(none.len(), 0);
    assert_eq!(none.total_events(), 0);
    let mut outcomes = EquityAggregate::new();
    assert_eq!(simulate_hands(0, &[], &holes, &mut outcomes), 0);
    assert_eq!(outcomes.len(), 0);
}

#[test]
fn sure_winner_wins_every_trial() {
    // Quad aces cannot be caught with one board card to come.
    let known = [card(Ace, Clubs), card(Ace, Spades), card(Seven, Hearts), card(Two, Clubs)];
    let holes = [[card(Ace, Hearts), card(Ace, Diamonds)], [card(King, Hearts), card(King, Diamonds)]];
    let (all, completed) = run_simulation(300, 4, &known, &holes);
    assert_eq!(completed, 300);
    assert_eq!(all.len(), 1);
    assert_eq!(all.get(&vec![0]).unwrap().events, [0, 0, 0, 0, 0, 0, 0, 300, 0]);
}

#[test]
fn players_who_play_the_board_chop() {
    let board = [card(Nine, Clubs), card(Eight, Diamonds), card(Seven, Hearts), card(Six, Spades), card(Five, Clubs)];
    let holes = [
        [card(Two, Spades), card(Two, Hearts)],
        [card(Ace, Spades), card(King, Hearts)],
        [card(Ten, Spades), card(Three, Hearts)],
        [card(Ace, Clubs), card(Three, Diamonds)],
    ];
    let (winners, best) = simulate_hand(&board, &holes[0..2]);
    assert_eq!(winners, vec![0, 1]);
    assert_eq!(best, Hand::Straight(StraightStr { hi_rank: Nine }));

    let (winners, best) = simulate_hand(&board, &holes);
    assert_eq!(winners, vec![2]);
    assert_eq!(best, Hand::Straight(StraightStr { hi_rank: Ten }));

    let (winners, _) = simulate_hand(&board, &[holes[0], holes[1], holes[3]]);
    assert_eq!(winners, vec![0, 1, 2]);
}

#[test]
fn every_trial_is_counted_once_whatever_the_shards() {
    let holes = two_players();
    let (one, completed_one) = run_simulation(1000, 1, &[], &holes);
    let (four, completed_four) = run_simulation(1000, 4, &[], &holes);
    assert_eq!(completed_one, 1000);
    assert_eq!(completed_four, 1000);
    for outcomes in [&one, &four].iter() {
        assert_eq!(outcomes.total_events(), 1000);
        let mut sum = 0;
        for at in 0..outcomes.len() {
            let entry = outcomes.entry(at);
            assert!(!entry.winners.is_empty());
            for i in 1..entry.winners.len() {
                assert!(entry.winners[i - 1] < entry.winners[i]);
            }
            assert!(entry.winners.iter().all(|player| *player < 2));
            for at_other in 0..at {
                assert_ne!(outcomes.entry(at_other).winners, entry.winners);
            }
            sum += entry.stats.events.iter().sum::<u64>();
            assert_eq!(entry.stats.total_events(), entry.stats.events.iter().sum::<u64>());
        }
        assert_eq!(sum, 1000);
    }
}

#[test]
fn random_boards_use_fresh_cards() {
    let holes = two_players();
    let mut boards_seen: Vec<[Card; 5]> = Vec::new();
    for _ in 0..200 {
        let board = pick_random_board(&[], &holes).expect("a board");
        for i in 0..5 {
            for hole_cards in holes.iter() {
                assert!(!hole_cards.contains(&board[i]));
            }
            for j in 0..i {
                assert_ne!(board[i], board[j]);
            }
        }
        if !boards_seen.contains(&board) {
            boards_seen.push(board);
        }
    }
    assert!(boards_seen.len() > 1);
}

#[test]
fn random_boards_keep_the_known_cards() {
    let holes = two_players();
    let known = [card(Nine, Clubs), card(Eight, Diamonds), card(Seven, Hearts)];
    for _ in 0..100 {
        let board = pick_random_board(&known, &holes).expect("a board");
        assert_eq!(board[0..3], known);
        for j in 3..5 {
            assert!(!known.contains(&board[j]));
            for hole_cards in holes.iter() {
                assert!(!hole_cards.contains(&board[j]));
            }
        }
        assert_ne!(board[3], board[4]);
    }
    let full = spade_board();
    assert_eq!(pick_random_board(&full, &holes), Some(full));
}

#[test]
fn random_board_from_a_nearly_empty_deck() {
    // 23 players hold 46 cards; with the board known up to one card, two cards are left.
    let mut deck: Vec<Card> = (0..52u8).map(Card::from_index).collect();
    let left = [deck.pop().unwrap(), deck.pop().unwrap()];
    let known = [deck.pop().unwrap(), deck.pop().unwrap(), deck.pop().unwrap(), deck.pop().unwrap()];
    let holes: Vec<[Card; 2]> = deck.chunks(2).map(|pair| [pair[0], pair[1]]).collect();
    assert_eq!(holes.len(), 23);
    for _ in 0..20 {
        let board = pick_random_board(&known, &holes).expect("a board");
        assert_eq!(board[0..4], known);
        assert!(left.contains(&board[4]));
    }
}

#[test]
fn no_board_where_the_deck_is_used_up() {
    assert_eq!(MAX_DRAWS, 1_000_000);
    let deck: Vec<Card> = (0..52u8).map(Card::from_index).collect();
    let holes: Vec<[Card; 2]> = deck.chunks(2).map(|pair| [pair[0], pair[1]]).collect();
    assert_eq!(pick_random_board(&[], &holes), None);
    let mut outcomes = EquityAggregate::new();
    assert_eq!(simulate_hands(3, &[], &holes, &mut outcomes), 0);
    assert_eq!(outcomes.len(), 0);
}

#[test]
fn board_takes_only_cards_left_in_the_deck() {
    let holes = [[card(King, Spades), card(Queen, Spades)]];
    let mut draw = BoardDraw::start(&[card(Ace, Spades)], &holes);
    assert!(!draw.is_full());
    assert!(!draw.offer(card(Ace, Spades).index()));
    assert!(!draw.offer(card(King, Spades).index()));
    assert!(!draw.offer(card(Queen, Spades).index()));
    assert!(draw.offer(0));
    assert!(!draw.offer(0));
    assert!(draw.offer(51));
    assert!(draw.offer(13));
    assert!(!draw.is_full());
    assert!(!draw.offer(51));
    assert!(draw.offer(14));
    assert!(draw.is_full());
    assert_eq!(
        draw.finish(),
        [card(Ace, Spades), card(Two, Spades), card(Ace, Diamonds), card(Two, Hearts), card(Three, Hearts)]
    );
    assert!(contains_code(&vec![3, 9, 27], 9));
    assert!(!contains_code(&vec![3, 9, 27], 10));
    assert!(!contains_code(&vec![], 0));
}

#[test]
fn aggregate_counts_by_outcome_and_category() {
    let pair = Hand::Pair(PairStr { rank: Nine, kickers: [King, Jack, Two] });
    let flush = Hand::Flush(FlushStr { ranks: [King, Jack, Ten, Six, Two] });
    let mut outcomes = EquityAggregate::new();
    assert_eq!(outcomes.len(), 0);
    assert_eq!(outcomes.total_events(), 0);
    assert_eq!(outcomes.find(&vec![0]), None);

    insert_outcome(&mut outcomes, &vec![0], &pair);
    insert_outcome(&mut outcomes, &vec![0, 1], &flush);
    insert_outcome(&mut outcomes, &vec![0], &flush);
    outcomes.record(&vec![0], &pair);
    outcomes.record(&vec![1], &pair);

    assert_eq!(outcomes.len(), 3);
    assert_eq!(outcomes.total_events(), 5);
    assert_eq!(outcomes.find(&vec![0]), Some(0));
    assert_eq!(outcomes.find(&vec![0, 1]), Some(1));
    assert_eq!(outcomes.find(&vec![1]), Some(2));
    assert_eq!(outcomes.find(&vec![1, 0]), None);
    assert_eq!(outcomes.get(&vec![0]).unwrap().events, [0, 2, 0, 0, 0, 1, 0, 0, 0]);
    assert_eq!(outcomes.get(&vec![0, 1]).unwrap().events, [0, 0, 0, 0, 0, 1, 0, 0, 0]);
    assert_eq!(outcomes.get(&vec![1]).unwrap().events, [0, 1, 0, 0, 0, 0, 0, 0, 0]);
    assert_eq!(outcomes.get(&vec![0]).unwrap().total_events(), 3);

    let mut other = EquityAggregate::new();
    other.record(&vec![1], &flush);
    other.record(&vec![2], &pair);
    other.record(&vec![0], &pair);
    outcomes.merge(&other);
    assert_eq!(outcomes.len(), 4);
    assert_eq!(outcomes.total_events(), 8);
    assert_eq!(outcomes.get(&vec![0]).unwrap().events, [0, 3, 0, 0, 0, 1, 0, 0, 0]);
    assert_eq!(outcomes.get(&vec![1]).unwrap().events, [0, 1, 0, 0, 0, 1, 0, 0, 0]);
    assert_eq!(outcomes.get(&vec![2]).unwrap().events, [0, 1, 0, 0, 0, 0, 0, 0, 0]);
    assert_eq!(outcomes.get(&vec![0, 1]).unwrap().events, [0, 0, 0, 0, 0, 1, 0, 0, 0]);
    assert_eq!(other.total_events(), 3);

    let mut tally = HandStats::create();
    tally.add_event(&flush);
    tally.add_event(&flush);
    outcomes.add_counts(&vec![2], &tally);
    assert_eq!(outcomes.get(&vec![2]).unwrap().events, [0, 1, 0, 0, 0, 2, 0, 0, 0]);
    assert_eq!(outcomes.total_events(), 10);
}

#[test]
fn tallies_add_up() {
    let pair = Hand::Pair(PairStr { rank: Nine, kickers: [King, Jack, Two] });
    let straight = Hand::Straight(StraightStr { hi_rank: Eight });
    let mut one = HandStats::create();
    assert_eq!(one.events, [0; 9]);
    assert_eq!(one.total_events(), 0);
    one.add_event(&pair);
    one.add_event(&straight);
    one.add_event(&pair);
    assert_eq!(one.events, [0, 2, 0, 0, 1, 0, 0, 0, 0]);
    assert_eq!(one.total_events(), 3);
    let mut other = HandStats { events: [1, 2, 3, 4, 5, 6, 7, 8, 9] };
    assert_eq!(other.total_events(), 45);
    other.add_stats(&one);
    assert_eq!(other.events, [1, 4, 3, 4, 6, 6, 7, 8, 9]);
    assert_eq!(other.total_events(), 48);

    assert!(same_winners(&vec![0, 2], &vec![0, 2]));
    assert!(!same_winners(&vec![0, 2], &vec![0, 1]));
    assert!(!same_winners(&vec![0], &vec![0, 1]));
    assert!(same_winners(&vec![], &vec![]));
    assert_eq!(copy_winners(&vec![4, 7, 9]), vec![4, 7, 9]);
}

#[test]
fn aces_beat_kings_about_four_times_in_five() {
    let holes = [
        [card(Ace, Spades), card(Ace, Hearts)],
        [card(King, Clubs), card(King, Diamonds)],
    ];
    let (outcomes, completed) = run_simulation(4000, 4, &[], &holes);
    assert_eq!(completed, 4000);
    let aces = outcomes.get(&vec![0]).map_or(0, |stats| stats.total_events());
    let kings = outcomes.get(&vec![1]).map_or(0, |stats| stats.total_events());
    let chops = outcomes.get(&vec![0, 1]).map_or(0, |stats| stats.total_events());
    assert_eq!(aces + kings + chops, 4000);
    // The true shares are near 82%, 18% and less than 1%.
    assert!(3040 <= aces && aces <= 3520, "aces won {} of 4000", aces);
    assert!(480 <= kings && kings <= 960, "kings won {} of 4000", kings);
    assert!(chops <= 120, "{} chops in 4000", chops);
}
