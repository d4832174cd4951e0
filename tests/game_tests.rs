use card_dealer::card_dealer::{Card, Rank, Suit};
use card_dealer::game_controller::{winners_among, GameController};
use card_dealer::player::{Player, PlayerAction};
use card_dealer::poker_hand::HandRank;

fn create_card(rank: Rank, suit: Suit) -> Card {
    Card { rank, suit }
}

fn seat(id: &str, hole: Vec<Card>, board: &[Card]) -> Player {
    let mut p = Player::new(id.to_string(), format!("Player {}", id), 0, 1000);
    p.hole_cards = hole;
    p.evaluate_hand(board);
    p
}

fn three_players() -> Vec<(String, String, usize, u32)> {
    vec![
        ("1".to_string(), "Alice".to_string(), 0, 1000),
        ("2".to_string(), "Bob".to_string(), 1, 1000),
        ("3".to_string(), "Charlie".to_string(), 2, 1000),
    ]
}

fn board_straight() -> Vec<Card> {
    vec![
        create_card(Rank::Nine, Suit::Spades),
        create_card(Rank::Ten, Suit::Hearts),
        create_card(Rank::Jack, Suit::Diamonds),
        create_card(Rank::Queen, Suit::Clubs),
        create_card(Rank::King, Suit::Spades),
    ]
}

#[test]
fn tied_players_both_win() {
    let board = board_straight();
    let players = vec![
        seat("1", vec![create_card(Rank::Two, Suit::Clubs), create_card(Rank::Three, Suit::Diamonds)], &board),
        seat("2", vec![create_card(Rank::Two, Suit::Diamonds), create_card(Rank::Four, Suit::Clubs)], &board),
        seat("3", vec![create_card(Rank::Ace, Suit::Clubs), create_card(Rank::Five, Suit::Diamonds)], &board),
    ];
    assert_eq!(players[0].hand_strength, Some(HandRank::Straight));
    assert_eq!(players[1].hand_strength, Some(HandRank::Straight));
    let pool = vec!["1".to_string(), "2".to_string()];
    assert_eq!(winners_among(&players, &pool), Some(vec!["1".to_string(), "2".to_string()]));
    // The Ace-high straight of the third player beats both.
    let everyone = vec!["1".to_string(), "2".to_string(), "3".to_string()];
    assert_eq!(winners_among(&players, &everyone), Some(vec!["3".to_string()]));
}

#[test]
fn kickers_decide_within_a_category() {
    let board = vec![
        create_card(Rank::Two, Suit::Spades),
        create_card(Rank::Seven, Suit::Hearts),
        create_card(Rank::Seven, Suit::Diamonds),
        create_card(Rank::Jack, Suit::Clubs),
        create_card(Rank::Four, Suit::Spades),
    ];
    let players = vec![
        seat("1", vec![create_card(Rank::King, Suit::Clubs), create_card(Rank::Three, Suit::Diamonds)], &board),
        seat("2", vec![create_card(Rank::Ace, Suit::Diamonds), create_card(Rank::Three, Suit::Clubs)], &board),
    ];
    let pool = vec!["1".to_string(), "2".to_string()];
    assert_eq!(winners_among(&players, &pool), Some(vec!["2".to_string()]));
}

#[test]
fn no_winner_without_evaluated_hands() {
    let mut game = GameController::new();
    game.initialize_players(three_players());
    let everyone: Vec<String> = vec!["1".to_string(), "2".to_string(), "3".to_string()];
    assert_eq!(game.get_winners(&[]), None);
    assert_eq!(game.get_winners(&everyone), None);
    let board = board_straight();
    let players = vec![seat("1", vec![], &board[..3])];
    assert!(players[0].best_hand.is_none());
    assert_eq!(winners_among(&players, &everyone), None);
    let stranger = vec!["9".to_string()];
    let evaluated = vec![seat("1", vec![], &board)];
    assert_eq!(winners_among(&evaluated, &stranger), None);
}

#[test]
fn full_round_evaluates_and_resolves() {
    let mut game = GameController::new();
    game.initialize_players(three_players());
    assert_eq!(game.get_players().len(), 3);
    assert_eq!(game.get_players()[1].display_name, "Bob");
    assert!(game.deal_hole_cards().is_ok());
    for p in game.get_players() {
        assert_eq!(p.hole_cards.len(), 2);
    }
    {
        let table = game.get_table_mut();
        assert!(table.add_bet("1", 100).is_ok());
        assert!(table.add_bet("2", 300).is_ok());
        assert!(table.add_bet("3", 300).is_ok());
    }
    assert!(game.deal_community_cards().is_ok());
    assert_eq!(game.get_community_cards().len(), 5);
    for p in game.get_players() {
        let h = p.best_hand.as_ref().unwrap();
        assert_eq!(h.cards.len(), 5);
        assert_eq!(p.hand_strength, Some(h.rank));
    }
    let everyone: Vec<String> = vec!["1".to_string(), "2".to_string(), "3".to_string()];
    let overall = game.get_winners(&everyone).unwrap();
    assert!(!overall.is_empty());
    let table = game.get_table_mut();
    assert_eq!(table.pots.len(), 2);
    let main = table.pots[0].winners.clone().unwrap();
    let side = table.pots[1].winners.clone().unwrap();
    assert!(!main.is_empty());
    assert!(side.iter().all(|w| w == "2" || w == "3"));
}

#[test]
fn dealing_fails_without_enough_cards() {
    let mut game = GameController::new();
    let many: Vec<(String, String, usize, u32)> =
        (0..27).map(|i| (format!("p{}", i), format!("P{}", i), i, 100)).collect();
    game.initialize_players(many);
    assert!(game.deal_hole_cards().is_err());
    assert!(game.get_players().iter().all(|p| p.hole_cards.is_empty()));

    let mut game = GameController::new();
    let many: Vec<(String, String, usize, u32)> =
        (0..24).map(|i| (format!("p{}", i), format!("P{}", i), i, 100)).collect();
    game.initialize_players(many);
    assert!(game.deal_hole_cards().is_ok());
    assert!(game.deal_community_cards().is_err());
    assert!(game.get_community_cards().is_empty());
}

#[test]
fn reset_returns_to_a_fresh_hand() {
    let mut game = GameController::new();
    game.initialize_players(three_players());
    assert!(game.deal_hole_cards().is_ok());
    assert!(game.deal_community_cards().is_ok());
    game.reset_deck();
    assert!(game.get_community_cards().is_empty());
    for p in game.get_players() {
        assert!(p.hole_cards.is_empty());
        assert!(p.best_hand.is_none());
        assert!(p.hand_strength.is_none());
        assert!(p.is_in_play);
    }
    assert!(game.deal_hole_cards().is_ok());
}

#[test]
fn player_betting() {
    let mut p = Player::new("1".to_string(), "Alice".to_string(), 0, 100);
    assert!(p.bet(30).is_ok());
    assert_eq!(p.chip_stack, 70);
    assert!(p.bet(71).is_err());
    assert_eq!(p.chip_stack, 70);
    assert_eq!(p.raise(20, 10), Ok(30));
    assert_eq!(p.chip_stack, 40);
    assert!(p.raise(30, 20).is_err());
    assert_eq!(p.chip_stack, 40);
    p.add_chips(60);
    assert_eq!(p.chip_stack, 100);
    assert_eq!(
        p.action_history,
        vec![PlayerAction::Bet(30), PlayerAction::Bet(30), PlayerAction::Raise(10)]
    );
    p.clear_action_history();
    assert!(p.action_history.is_empty());
}

#[test]
fn folding_and_sitting_out() {
    let mut p = Player::new("1".to_string(), "Alice".to_string(), 0, 100);
    p.hole_cards = vec![create_card(Rank::Ace, Suit::Hearts), create_card(Rank::King, Suit::Hearts)];
    p.fold();
    assert!(!p.is_in_play);
    assert!(p.hole_cards.is_empty());
    assert_eq!(p.action_history, vec![PlayerAction::Fold]);
    p.reset_for_new_hand();
    assert!(p.is_in_play);
    p.sit_out();
    assert!(p.is_sitting_out);
    p.reset_for_new_hand();
    assert!(!p.is_in_play);
    p.record_action(PlayerAction::Check);
    assert_eq!(p.action_history, vec![PlayerAction::Check]);
}

#[test]
fn evaluation_replaces_earlier_hand() {
    let board = board_straight();
    let mut p = seat("1", vec![create_card(Rank::Two, Suit::Clubs), create_card(Rank::Two, Suit::Hearts)], &board);
    assert_eq!(p.hand_strength, Some(HandRank::Straight));
    p.evaluate_hand(&board[..2]);
    assert!(p.best_hand.is_none());
    assert!(p.hand_strength.is_none());
}
