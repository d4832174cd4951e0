//! Poker hand evaluation and pot resolution: the best five-card hand of each
//! player, a total order over hands, and the split of the chips into a main
//! pot and side pots, each resolved to its winners.

pub mod card_dealer;
pub mod game_controller;
pub mod player;
pub mod poker_hand;
pub mod table;
