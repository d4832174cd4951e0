use crate::card_dealer::Card;
use crate::poker_hand::{find_best_hand, is_best_hand_of, Hand, HandRank};
use vstd::prelude::*;

verus! {

broadcast use vstd::string::to_string_from_display_ensures_for_str;

pub struct Player {
    /// Unique identifier of the player within a game.
    pub player_id: String,
    pub display_name: String,
    pub hole_cards: Vec<Card>,
    /// The category of `best_hand`, kept in step with it.
    pub hand_strength: Option<HandRank>,
    pub best_hand: Option<Hand>,
    pub chip_stack: u32,
    pub table_position: usize,
    pub is_sitting_out: bool,
    /// Whether the player takes part in the current hand.
    pub is_in_play: bool,
    pub action_history: Vec<PlayerAction>,
}

#[derive(Debug, Clone, Copy, PartialEq, Eq, Structural)]
pub enum PlayerAction {
    Bet(u32),
    Raise(u32),
    Fold,
    Check,
    Call,
    SitOut,
}

/// The category that mirrors an optional hand.
pub open spec fn strength_of(best: Option<Hand>) -> Option<HandRank> {
    match best {
        Some(h) => Some(h.rank),
        None => None,
    }
}

/// The two cards sequences one after the other.
fn concat_cards(a: &[Card], b: &[Card]) -> (r: Vec<Card>)
    ensures
        r@ == a@ + b@,
{
    let mut r: Vec<Card> = Vec::new();
    let mut i: usize = 0;
    while i < a.len()
        invariant
            i <= a@.len(),
            r@ == a@.take(i as int),
        decreases a@.len() - i,
    {
        r.push(a[i]);
        proof {
            assert(r@ =~= a@.take(i + 1));
        }
        i = i + 1;
    }
    let mut j: usize = 0;
    while j < b.len()
        invariant
            j <= b@.len(),
            r@ == a@ + b@.take(j as int),
        decreases b@.len() - j,
    {
        r.push(b[j]);
        proof {
            assert(r@ =~= a@ + b@.take(j + 1));
        }
        j = j + 1;
    }
    proof {
        assert(a@.take(a@.len() as int) =~= a@);
        assert(b@.take(b@.len() as int) =~= b@);
    }
    r
}

impl Player {
    /// The category mirrors the best hand.
    pub open spec fn strength_in_step(self) -> bool {
        self.hand_strength == strength_of(self.best_hand)
    }

    /// The fields other than the best hand and its category agree.
    pub open spec fn same_but_hand(self, other: Player) -> bool {
        &&& self.player_id == other.player_id
        &&& self.display_name == other.display_name
        &&& self.hole_cards == other.hole_cards
        &&& self.chip_stack == other.chip_stack
        &&& self.table_position == other.table_position
        &&& self.is_sitting_out == other.is_sitting_out
        &&& self.is_in_play == other.is_in_play
        &&& self.action_history == other.action_history
    }

    /// Creates a new player, in play, with no cards and no history.
    pub fn new(player_id: String, display_name: String, table_position: usize, chip_stack: u32) -> (p:
        Self)
        ensures
            p.player_id == player_id,
            p.display_name == display_name,
            p.hole_cards@.len() == 0,
            p.hand_strength is None,
            p.best_hand is None,
            p.chip_stack == chip_stack,
            p.table_position == table_position,
            !p.is_sitting_out,
            p.is_in_play,
            p.action_history@.len() == 0,
    {
        Self {
            player_id,
            display_name,
            hole_cards: Vec::new(),
            hand_strength: None,
            best_hand: None,
            chip_stack,
            table_position,
            is_sitting_out: false,
            is_in_play: true,
            action_history: Vec::new(),
        }
    }

    /// Recomputes the best hand from the hole cards and the given community
    /// cards, replacing any earlier one. With fewer than five cards in all
    /// there is no hand.
    pub fn evaluate_hand(&mut self, community_cards: &[Card])
        requires
            old(self).hole_cards@.len() + community_cards@.len() <= 52,
        ensures
            final(self).same_but_hand(*old(self)),
            final(self).strength_in_step(),
            old(self).hole_cards@.len() + community_cards@.len() >= 5 ==> (final(self).best_hand matches Some(h)
                && is_best_hand_of(h, old(self).hole_cards@ + community_cards@)),
            old(self).hole_cards@.len() + community_cards@.len() < 5 ==> final(self).best_hand is None,
    {
        let combined = concat_cards(self.hole_cards.as_slice(), community_cards);
        if combined.len() >= 5 {
            let hand = find_best_hand(combined.as_slice());
            self.hand_strength = Some(hand.rank);
            self.best_hand = Some(hand);
        } else {
            self.best_hand = None;
            self.hand_strength = None;
        }
    }

    /// Takes a bet out of the chip stack and records it; fails, changing
    /// nothing, when the stack is too small.
    pub fn bet(&mut self, amount: u32) -> (r: Result<(), String>)
        ensures
            amount > old(self).chip_stack ==> r is Err && *final(self) == *old(self),
            r matches Err(e) ==> e@ == "Not enough chips to bet"@,
            amount <= old(self).chip_stack ==> {
                &&& r is Ok
                &&& final(self).chip_stack == old(self).chip_stack - amount
                &&& final(self).action_history@ == old(self).action_history@.push(
                    PlayerAction::Bet(amount),
                )
                &&& final(self).same_but_stack_and_history(*old(self))
            },
    {
        if amount > self.chip_stack {
            Err("Not enough chips to bet".to_string())
        } else {
            self.chip_stack = self.chip_stack - amount;
            self.record_action(PlayerAction::Bet(amount));
            Ok(())
        }
    }

    /// The fields other than the chip stack and the history agree.
    pub open spec fn same_but_stack_and_history(self, other: Player) -> bool {
        &&& self.player_id == other.player_id
        &&& self.display_name == other.display_name
        &&& self.hole_cards == other.hole_cards
        &&& self.hand_strength == other.hand_strength
        &&& self.best_hand == other.best_hand
        &&& self.table_position == other.table_position
        &&& self.is_sitting_out == other.is_sitting_out
        &&& self.is_in_play == other.is_in_play
    }

    /// Marks the player as folded for the current hand.
    pub fn fold(&mut self)
        ensures
            !final(self).is_in_play,
            final(self).hole_cards@.len() == 0,
            final(self).action_history@ == old(self).action_history@.push(PlayerAction::Fold),
            final(self).player_id == old(self).player_id,
            final(self).display_name == old(self).display_name,
            final(self).chip_stack == old(self).chip_stack,
            final(self).table_position == old(self).table_position,
            final(self).is_sitting_out == old(self).is_sitting_out,
            final(self).best_hand == old(self).best_hand,
            final(self).hand_strength == old(self).hand_strength,
    {
        self.is_in_play = false;
        self.hole_cards.clear();
        self.record_action(PlayerAction::Fold);
    }

    /// Bets the current bet plus a raise, and records both; returns the
    /// total bet, or fails, changing nothing, when the stack is too small.
    pub fn raise(&mut self, current_bet: u32, raise_amount: u32) -> (r: Result<u32, String>)
        requires
            current_bet + raise_amount <= u32::MAX,
        ensures
            current_bet + raise_amount > old(self).chip_stack ==> r is Err && *final(self)
                == *old(self),
            r matches Err(e) ==> e@ == "Not enough chips to bet"@,
            current_bet + raise_amount <= old(self).chip_stack ==> {
                &&& r == Ok::<u32, String>((current_bet + raise_amount) as u32)
                &&& final(self).chip_stack == old(self).chip_stack - (current_bet + raise_amount)
                &&& final(self).action_history@ == old(self).action_history@.push(
                    PlayerAction::Bet((current_bet + raise_amount) as u32),
                ).push(PlayerAction::Raise(raise_amount))
                &&& final(self).same_but_stack_and_history(*old(self))
            },
    {
        let total_bet = current_bet + raise_amount;
        match self.bet(total_bet) {
            Ok(()) => {},
            Err(e) => {
                return Err(e);
            },
        }
        self.record_action(PlayerAction::Raise(raise_amount));
        Ok(total_bet)
    }

    /// Marks the player as sitting out, which also folds the current hand.
    pub fn sit_out(&mut self)
        ensures
            final(self).is_sitting_out,
            !final(self).is_in_play,
            final(self).hole_cards@.len() == 0,
            final(self).action_history@ == old(self).action_history@.push(PlayerAction::Fold),
            final(self).player_id == old(self).player_id,
            final(self).display_name == old(self).display_name,
            final(self).chip_stack == old(self).chip_stack,
            final(self).table_position == old(self).table_position,
            final(self).best_hand == old(self).best_hand,
            final(self).hand_strength == old(self).hand_strength,
    {
        self.is_sitting_out = true;
        self.is_in_play = false;
        self.hole_cards.clear();
        self.record_action(PlayerAction::Fold);
    }

    /// Prepares the player for a new hand: no cards, no hand, no history,
    /// and in play unless sitting out.
    pub fn reset_for_new_hand(&mut self)
        ensures
            final(self).hole_cards@.len() == 0,
            final(self).is_in_play == !old(self).is_sitting_out,
            final(self).hand_strength is None,
            final(self).best_hand is None,
            final(self).action_history@.len() == 0,
            final(self).player_id == old(self).player_id,
            final(self).display_name == old(self).display_name,
            final(self).chip_stack == old(self).chip_stack,
            final(self).table_position == old(self).table_position,
            final(self).is_sitting_out == old(self).is_sitting_out,
    {
        self.hole_cards.clear();
        self.is_in_play = !self.is_sitting_out;
        self.hand_strength = None;
        self.best_hand = None;
        self.clear_action_history();
    }

    /// Adds chips to the player's stack.
    pub fn add_chips(&mut self, amount: u32)
        requires
            old(self).chip_stack + amount <= u32::MAX,
        ensures
            final(self).chip_stack == old(self).chip_stack + amount,
            final(self).same_but_stack_and_history(*old(self)),
            final(self).action_history == old(self).action_history,
    {
        self.chip_stack = self.chip_stack + amount;
    }

    /// Records an action in the player's history.
    pub fn record_action(&mut self, action: PlayerAction)
        ensures
            final(self).action_history@ == old(self).action_history@.push(action),
            final(self).chip_stack == old(self).chip_stack,
            final(self).same_but_stack_and_history(*old(self)),
    {
        self.action_history.push(action);
    }

    /// Clears the player's action history.
    pub fn clear_action_history(&mut self)
        ensures
            final(self).action_history@.len() == 0,
            final(self).chip_stack == old(self).chip_stack,
            final(self).same_but_stack_and_history(*old(self)),
    {
        self.action_history.clear();
    }
}

} // verus!
