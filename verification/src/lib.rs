//! Poker hand ranking and equity simulation.
//!
//! The library ranks five-card poker hands, finds the best hand among five
//! or more cards, and estimates each player's chances in a hand of hold'em
//! by playing out random boards.
//!
//! - `cards`: ranks, suits, cards, and their order.
//! - `hand`: the nine hand categories and the total order of hands.
//! - `hand_builder`: recognizing the category of five sorted cards.
//! - `counts`, `arrangement`: what holds of the hand of any five cards.
//! - `combinations`, `binomial`: selections of five out of `n`, and the
//!   order in which they follow one another.
//! - `subsets`: walking through all five-card subsets of some cards.
//! - `sorting`, `best_hand`: the best hand among five or more cards.
//! - `board`, `rng`: completing a board with random cards.
//! - `winners`: who wins among the players' hands.
//! - `stats`: counting outcomes.
//! - `shards`, `simulation`: running trials and adding up their outcomes.
//! - `notation`: reading cards from text.

pub mod arrangement;
pub mod best_hand;
pub mod binomial;
pub mod board;
pub mod cards;
pub mod combinations;
pub mod counts;
pub mod hand;
pub mod hand_builder;
pub mod notation;
pub mod rng;
pub mod shards;
pub mod simulation;
pub mod sorting;
pub mod stats;
pub mod subsets;
pub mod winners;
