//! Completing the board with random cards that nobody holds.
//!
//! Cards are drawn from the whole deck, and a card that is out of the deck
//! is drawn again. The number of draws is capped, so that drawing ends even
//! where the deck has run out.

use crate::cards::{Card, Rank, Suit, DECK_SIZE};
use crate::rng::gen_range;
use vstd::prelude::*;

verus! {

/// The number of cards on a full board.
pub const BOARD_SIZE: usize = 5;

/// The most draws spent on completing one board before giving up.
pub const MAX_DRAWS: u64 = 1_000_000;

/// All hole cards in one row, player after player.
pub open spec fn hole_cards_of(all_hole_cards: Seq<[Card; 2]>) -> Seq<Card> {
    Seq::new(2 * all_hole_cards.len(), |i: int| all_hole_cards[i / 2]@[i % 2])
}

/// The cards dealt before a trial: the known board cards and all hole
/// cards.
pub open spec fn dealt(initial_board: Seq<Card>, all_hole_cards: Seq<[Card; 2]>) -> Seq<Card> {
    initial_board + hole_cards_of(all_hole_cards)
}

/// Some entry of `used` is the code.
pub open spec fn holds_code(used: Seq<u8>, code: int) -> bool {
    exists|i: int| 0 <= i < used.len() && #[trigger] used[i] == code
}

/// `board` is a full board that begins with the known board cards and goes
/// on with cards that were not dealt and are different from one another.
pub open spec fn completes(
    initial_board: Seq<Card>,
    all_hole_cards: Seq<[Card; 2]>,
    board: Seq<Card>,
) -> bool {
    &&& board.len() == BOARD_SIZE
    &&& initial_board.len() <= BOARD_SIZE
    &&& forall|i: int| 0 <= i < initial_board.len() ==> #[trigger] board[i] == initial_board[i]
    &&& forall|j: int|
        initial_board.len() <= j < BOARD_SIZE ==> !dealt(initial_board, all_hole_cards).contains(
            #[trigger] board[j],
        )
    &&& forall|i: int, j: int|
        0 <= i < j < BOARD_SIZE && initial_board.len() <= j ==> #[trigger] board[i]
            != #[trigger] board[j]
}

/// Whether some entry of `used` is the code.
pub fn contains_code(used: &Vec<u8>, code: u8) -> (held: bool)
    ensures
        held == holds_code(used@, code as int),
{
    let mut at: usize = 0;
    while at < used.len()
        invariant
            at <= used.len(),
            forall|i: int| 0 <= i < at ==> used[i] != code,
        decreases used.len() - at,
    {
        if used[at] == code {
            return true;
        }
        at += 1;
    }
    false
}

/// A board in the making: the cards laid out so far, and the codes of all
/// cards that are out of the deck.
pub struct BoardDraw {
    board: Vec<Card>,
    used_indexes: Vec<u8>,
}

impl BoardDraw {
    /// The board cards laid out so far.
    pub closed spec fn board(&self) -> Seq<Card> {
        self.board@
    }

    /// The codes of the cards that are out of the deck.
    pub closed spec fn used(&self) -> Seq<u8> {
        self.used_indexes@
    }

    /// The board is not overfull, and its cards are out of the deck.
    pub open spec fn wf(&self) -> bool {
        &&& self.board().len() <= BOARD_SIZE
        &&& forall|i: int|
            0 <= i < self.board().len() ==> holds_code(
                self.used(),
                (#[trigger] self.board()[i]).code(),
            )
    }

    /// Lays out the known board cards and takes them and all hole cards
    /// out of the deck.
    pub fn start(initial_board: &[Card], all_hole_cards: &[[Card; 2]]) -> (draw: BoardDraw)
        requires
            initial_board.len() <= BOARD_SIZE,
        ensures
            draw.wf(),
            draw.board() == initial_board@,
            forall|card: Card|
                dealt(initial_board@, all_hole_cards@).contains(card) ==> holds_code(
                    draw.used(),
                    #[trigger] card.code(),
                ),
            forall|code: int|
                holds_code(draw.used(), code) ==> exists|i: int|
                    0 <= i < dealt(initial_board@, all_hole_cards@).len() && (#[trigger] dealt(
                        initial_board@,
                        all_hole_cards@,
                    )[i]).code() == code,
    {
        let mut board: Vec<Card> = Vec::with_capacity(BOARD_SIZE);
        let mut used_indexes: Vec<u8> = Vec::new();
        let ghost all = dealt(initial_board@, all_hole_cards@);
        let mut index: usize = 0;
        while index < initial_board.len()
            invariant
                index <= initial_board.len() <= BOARD_SIZE,
                all == dealt(initial_board@, all_hole_cards@),
                board@ == initial_board@.take(index as int),
                used_indexes@.len() == index,
                forall|i: int| 0 <= i < index ==> (#[trigger] used_indexes@[i]) == all[i].code(),
            decreases initial_board.len() - index,
        {
            board.push(initial_board[index]);
            used_indexes.push(initial_board[index].index());
            assert(initial_board@.take(index + 1) =~= initial_board@.take(index as int).push(
                initial_board@[index as int],
            ));
            assert(all[index as int] == initial_board@[index as int]);
            index += 1;
        }
        assert(initial_board@.take(index as int) =~= initial_board@);
        let ghost known = initial_board@.len() as int;
        let mut player: usize = 0;
        while player < all_hole_cards.len()
            invariant
                player <= all_hole_cards.len(),
                all == dealt(initial_board@, all_hole_cards@),
                known == initial_board@.len(),
                used_indexes@.len() == known + 2 * player,
                forall|i: int|
                    0 <= i < known + 2 * player ==> (#[trigger] used_indexes@[i]) == all[i].code(),
            decreases all_hole_cards.len() - player,
        {
            let hole_cards = all_hole_cards[player];
            used_indexes.push(hole_cards[0].index());
            used_indexes.push(hole_cards[1].index());
            proof {
                let first = known + 2 * player;
                assert(all[first] == hole_cards_of(all_hole_cards@)[2 * player]);
                assert(all[first + 1] == hole_cards_of(all_hole_cards@)[2 * player + 1]);
                assert(all[first] == hole_cards@[0]);
                assert(all[first + 1] == hole_cards@[1]);
            }
            player += 1;
        }
        let draw = BoardDraw { board, used_indexes };
        proof {
            assert(all.len() == used_indexes@.len());
            assert forall|card: Card| all.contains(card) implies holds_code(
                draw.used(),
                #[trigger] card.code(),
            ) by {
                let i = choose|i: int| 0 <= i < all.len() && all[i] == card;
                assert(used_indexes@[i] == card.code());
            }
            assert forall|i: int| 0 <= i < draw.board().len() implies holds_code(
                draw.used(),
                (#[trigger] draw.board()[i]).code(),
            ) by {
                assert(all[i] == draw.board()[i]);
                assert(used_indexes@[i] == all[i].code());
            }
            assert forall|code: int| holds_code(draw.used(), code) implies exists|i: int|
                0 <= i < all.len() && (#[trigger] all[i]).code() == code by {
                let i = choose|i: int|
                    0 <= i < used_indexes@.len() && #[trigger] used_indexes@[i] == code;
                assert(all[i].code() == code);
            }
        }
        draw
    }

    /// Whether the board has all its cards.
    pub fn is_full(&self) -> (full: bool)
        ensures
            full == (self.board().len() >= BOARD_SIZE),
    {
        self.board.len() >= BOARD_SIZE
    }

    /// Offers the card with the given code for the next place on the board.
    /// A card that is out of the deck is turned down, and nothing changes;
    /// any other card is laid out and leaves the deck.
    pub fn offer(&mut self, code: u8) -> (taken: bool)
        requires
            old(self).wf(),
            old(self).board().len() < BOARD_SIZE,
            code < DECK_SIZE,
        ensures
            final(self).wf(),
            taken == !holds_code(old(self).used(), code as int),
            taken ==> final(self).board() == old(self).board().push(Card::from_code(code as int))
                && final(self).used() == old(self).used().push(code),
            !taken ==> final(self).board() == old(self).board() && final(self).used() == old(
                self,
            ).used(),
    {
        if contains_code(&self.used_indexes, code) {
            return false;
        }
        let card = Card::from_index(code);
        self.used_indexes.push(code);
        self.board.push(card);
        proof {
            let before = old(self).used();
            assert(self.used_indexes@[before.len() as int] == code);
            assert forall|i: int| 0 <= i < self.board@.len() implies holds_code(
                self.used_indexes@,
                (#[trigger] self.board@[i]).code(),
            ) by {
                if i < old(self).board().len() {
                    let held = old(self).board()[i].code();
                    assert(holds_code(before, held));
                    let k = choose|k: int| 0 <= k < before.len() && #[trigger] before[k] == held;
                    assert(self.used_indexes@[k] == held);
                }
            }
        }
        true
    }

    /// The five cards of a full board.
    pub fn finish(&self) -> (board: [Card; BOARD_SIZE])
        requires
            self.board().len() == BOARD_SIZE,
        ensures
            board@ == self.board(),
    {
        let board = [self.board[0], self.board[1], self.board[2], self.board[3], self.board[4]];
        assert(board@ =~= self.board@);
        board
    }
}

/// Completes the board with random cards that were not dealt. Cards are
/// drawn from the whole deck, and a card that is out of the deck is drawn
/// again; `None` if `MAX_DRAWS` draws did not fill the board.
pub fn pick_random_board(initial_board: &[Card], all_hole_cards: &[[Card; 2]]) -> (picked: Option<
    [Card; BOARD_SIZE],
>)
    requires
        initial_board.len() <= BOARD_SIZE,
    ensures
        initial_board.len() == BOARD_SIZE ==> picked is Some,
        picked is Some ==> completes(initial_board@, all_hole_cards@, picked->0@),
{
    let mut draw = BoardDraw::start(initial_board, all_hole_cards);
    let mut rng = rand::thread_rng();
    let mut draws_left: u64 = MAX_DRAWS;
    let ghost all = dealt(initial_board@, all_hole_cards@);
    let ghost known = initial_board@.len() as int;
    while !draw.is_full() && draws_left > 0
        invariant
            draw.wf(),
            all == dealt(initial_board@, all_hole_cards@),
            known == initial_board@.len(),
            known <= draw.board().len() <= BOARD_SIZE,
            forall|i: int| 0 <= i < known ==> #[trigger] draw.board()[i] == initial_board@[i],
            forall|card: Card|
                all.contains(card) ==> holds_code(draw.used(), #[trigger] card.code()),
            forall|j: int|
                known <= j < draw.board().len() ==> !all.contains(#[trigger] draw.board()[j]),
            forall|i: int, j: int|
                0 <= i < j < draw.board().len() && known <= j ==> #[trigger] draw.board()[i]
                    != #[trigger] draw.board()[j],
        decreases draws_left,
    {
        let ghost before = draw;
        let code = gen_range(&mut rng, 0, DECK_SIZE);
        let taken = draw.offer(code);
        proof {
            if taken {
                let card = Card::from_code(code as int);
                let last = before.board().len() as int;
                assert(draw.board()[last] == card);
                assert(card.code() == code) by {
                    Rank::lemma_from_value(code as int % 52 % 13);
                    Suit::lemma_from_value(code as int % 52 / 13);
                }
                assert forall|held: Card| all.contains(held) implies holds_code(
                    draw.used(),
                    #[trigger] held.code(),
                ) by {
                    assert(holds_code(before.used(), held.code()));
                    let k = choose|k: int|
                        0 <= k < before.used().len() && #[trigger] before.used()[k] == held.code();
                    assert(draw.used()[k] == held.code());
                }
                assert forall|i: int| 0 <= i < last implies #[trigger] draw.board()[i] != card by {
                    assert(holds_code(before.used(), before.board()[i].code()));
                }
                assert forall|j: int| known <= j < draw.board().len() implies !all.contains(
                    #[trigger] draw.board()[j],
                ) by {
                    if j < last {
                        assert(!all.contains(before.board()[j]));
                    }
                }
                assert forall|i: int, j: int|
                    0 <= i < j < draw.board().len() && known <= j implies #[trigger] draw.board()[i]
                    != #[trigger] draw.board()[j] by {
                    if j < last {
                        assert(before.board()[i] != before.board()[j]);
                    } else {
                        assert(draw.board()[i] != card);
                    }
                }
                assert forall|i: int| 0 <= i < known implies #[trigger] draw.board()[i]
                    == initial_board@[i] by {
                    assert(before.board()[i] == initial_board@[i]);
                }
            }
        }
        draws_left -= 1;
    }
    if draw.is_full() {
        Some(draw.finish())
    } else {
        None
    }
}

} // verus!
