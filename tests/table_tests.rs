use card_dealer::table::Table;

fn sorted(mut v: Vec<String>) -> Vec<String> {
    v.sort();
    v
}

fn names(v: &[&str]) -> Vec<String> {
    v.iter().map(|s| s.to_string()).collect()
}

fn pot_total(t: &Table) -> u64 {
    t.pots.iter().map(|p| p.total as u64).sum()
}

#[test]
fn pots_hold_every_chip_bet() {
    let mut t = Table::new();
    let bets: Vec<(&str, u32)> = vec![
        ("A", 50),
        ("B", 120),
        ("C", 120),
        ("A", 20),
        ("D", 0),
        ("B", 300),
        ("C", 10),
        ("A", 70),
    ];
    let mut sum: u64 = 0;
    for (who, amount) in bets {
        assert!(t.add_bet(who, amount).is_ok());
        sum += amount as u64;
        assert_eq!(pot_total(&t), sum);
    }
    assert_eq!(sum, 690);
}

#[test]
fn capped_player_is_left_out_of_later_side_pot() {
    let mut t = Table::new();
    assert!(t.add_bet("A", 100).is_ok());
    assert!(t.add_bet("B", 300).is_ok());
    assert!(t.add_bet("C", 300).is_ok());
    assert_eq!(t.pots.len(), 2);
    assert_eq!(t.pots[0].total, 300);
    assert_eq!(sorted(t.pots[0].eligible_players.clone()), names(&["A", "B", "C"]));
    assert_eq!(t.pots[1].total, 400);
    assert_eq!(sorted(t.pots[1].eligible_players.clone()), names(&["B", "C"]));
    assert!(t.pots.iter().all(|p| p.winners.is_none()));
    assert_eq!(t.max_bet, 300);
}

#[test]
fn capped_player_out_of_side_pot_when_others_raise_later() {
    let mut t = Table::new();
    assert!(t.add_bet("A", 100).is_ok());
    assert!(t.add_bet("B", 100).is_ok());
    assert!(t.add_bet("C", 100).is_ok());
    assert!(t.add_bet("B", 200).is_ok());
    assert!(t.add_bet("C", 200).is_ok());
    assert_eq!(t.pots.len(), 2);
    assert_eq!(t.pots[0].total, 300);
    assert_eq!(sorted(t.pots[0].eligible_players.clone()), names(&["A", "B", "C"]));
    assert_eq!(t.pots[1].total, 400);
    assert_eq!(sorted(t.pots[1].eligible_players.clone()), names(&["B", "C"]));
}

#[test]
fn calls_below_the_top_fill_lower_pots_first() {
    let mut t = Table::new();
    assert!(t.add_bet("A", 50).is_ok());
    assert!(t.add_bet("B", 200).is_ok());
    assert!(t.add_bet("C", 120).is_ok());
    // Levels: 50 (A), 200 (B). C's 120 fills the first pot by 50 and the
    // second by 70.
    assert_eq!(t.pots.len(), 2);
    assert_eq!(t.pots[0].level, 50);
    assert_eq!(t.pots[0].total, 150);
    assert_eq!(sorted(t.pots[0].eligible_players.clone()), names(&["A", "B", "C"]));
    assert_eq!(t.pots[1].level, 200);
    assert_eq!(t.pots[1].total, 220);
    assert_eq!(sorted(t.pots[1].eligible_players.clone()), names(&["B", "C"]));
    assert_eq!(pot_total(&t), 370);
}

#[test]
fn bet_that_overflows_is_refused() {
    let mut t = Table::new();
    assert!(t.add_bet("A", u32::MAX - 5).is_ok());
    assert!(t.add_bet("B", 6).is_err());
    assert_eq!(t.pots.len(), 1);
    assert_eq!(pot_total(&t), (u32::MAX - 5) as u64);
    assert!(t.add_bet("B", 5).is_ok());
    assert_eq!(pot_total(&t), u32::MAX as u64);
}

#[test]
fn reset_clears_the_round() {
    let mut t = Table::new();
    assert!(t.add_bet("A", 40).is_ok());
    assert!(t.add_bet("B", 40).is_ok());
    t.reset_for_new_round();
    assert!(t.pots.is_empty());
    assert!(t.player_bets.is_empty());
    assert!(t.community_cards.is_empty());
    assert_eq!(t.max_bet, 0);
    assert_eq!(t.min_bet, 0);
}

#[test]
fn active_players_in_order_of_first_bet() {
    let mut t = Table::new();
    assert!(t.add_bet("B", 10).is_ok());
    assert!(t.add_bet("A", 10).is_ok());
    assert!(t.add_bet("B", 10).is_ok());
    assert_eq!(t.active_players(), names(&["B", "A"]));
    assert_eq!(t.player_bets[0], ("B".to_string(), 20));
    assert_eq!(t.player_bets[1], ("A".to_string(), 10));
}

#[test]
fn zero_bet_opens_no_pot() {
    let mut t = Table::new();
    assert!(t.add_bet("A", 0).is_ok());
    assert!(t.pots.is_empty());
    assert_eq!(t.active_players(), names(&["A"]));
}
