use card_dealer::card_dealer::{Card, Deck, Rank, Suit};

fn deck_tally(cards: &[Card]) -> Vec<(Rank, Suit)> {
    let mut seen: Vec<(Rank, Suit)> = Vec::new();
    for c in cards {
        assert!(!seen.contains(&(c.rank, c.suit)), "card dealt twice");
        seen.push((c.rank, c.suit));
    }
    seen
}

#[test]
fn test_deck_initialization() {
    let deck = Deck::new();
    assert_eq!(deck.remaining(), 52);
}

#[test]
fn test_dealing_cards() {
    let mut deck = Deck::new();
    let dealt = deck.deal(5).unwrap();
    assert_eq!(dealt.len(), 5);
    assert_eq!(deck.remaining(), 47);
}

#[test]
fn test_not_enough_cards() {
    let mut deck = Deck::new();
    let _ = deck.deal(50);
    assert!(deck.deal(5).is_none());
}

#[test]
fn test_deck_reset() {
    let mut deck = Deck::new();
    let _ = deck.deal(10);
    deck.reset();
    assert_eq!(deck.remaining(), 52);
}

#[test]
fn test_deal_zero() {
    let mut deck = Deck::new();
    let dealt = deck.deal(0).unwrap();
    assert_eq!(dealt.len(), 0);
    assert_eq!(deck.remaining(), 52);
}

#[test]
fn test_deal_more_than_remaining() {
    let mut deck = Deck::new();
    let dealt = deck.deal(53);
    assert!(dealt.is_none());
}

#[test]
fn test_multiple_deals() {
    let mut deck = Deck::new();

    let first_deal = deck.deal(10).unwrap();
    assert_eq!(first_deal.len(), 10);
    assert_eq!(deck.remaining(), 42);

    let second_deal = deck.deal(15).unwrap();
    assert_eq!(second_deal.len(), 15);
    assert_eq!(deck.remaining(), 27);

    let third_deal = deck.deal(20).unwrap();
    assert_eq!(third_deal.len(), 20);
    assert_eq!(deck.remaining(), 7);

    let remaining_cards = deck.deal(7).unwrap();
    assert_eq!(remaining_cards.len(), 7);
    assert_eq!(deck.remaining(), 0);
}

#[test]
fn card_dealer_test_deck_initialization() {
    let deck = Deck::new();
    assert_eq!(deck.remaining(), 52);
}

#[test]
fn card_dealer_test_dealing_cards() {
    let mut deck = Deck::new();
    let dealt = deck.deal(5).unwrap();
    assert_eq!(dealt.len(), 5);
    assert_eq!(deck.remaining(), 47);
}

#[test]
fn card_dealer_test_not_enough_cards() {
    let mut deck = Deck::new();
    let _ = deck.deal(50);
    assert!(deck.deal(5).is_none());
}

#[test]
fn card_dealer_test_deck_reset() {
    let mut deck = Deck::new();
    let _ = deck.deal(10);
    deck.reset();
    assert_eq!(deck.remaining(), 52);
}

#[test]
fn card_dealer_test_deal_zero() {
    let mut deck = Deck::new();
    let dealt = deck.deal(0).unwrap();
    assert_eq!(dealt.len(), 0);
    assert_eq!(deck.remaining(), 52);
}

#[test]
fn card_dealer_test_deal_more_than_remaining() {
    let mut deck = Deck::new();
    let dealt = deck.deal(53);
    assert!(dealt.is_none());
}

#[test]
fn card_dealer_test_multiple_deals() {
    let mut deck = Deck::new();

    let first_deal = deck.deal(10).unwrap();
    assert_eq!(first_deal.len(), 10);
    assert_eq!(deck.remaining(), 42);

    let second_deal = deck.deal(15).unwrap();
    assert_eq!(second_deal.len(), 15);
    assert_eq!(deck.remaining(), 27);

    let third_deal = deck.deal(20).unwrap();
    assert_eq!(third_deal.len(), 20);
    assert_eq!(deck.remaining(), 7);

    let remaining_cards = deck.deal(7).unwrap();
    assert_eq!(remaining_cards.len(), 7);
    assert_eq!(deck.remaining(), 0);
}

#[test]
fn full_deck_holds_every_card_once() {
    let mut deck = Deck::new();
    let all = deck.deal(52).unwrap();
    let seen = deck_tally(&all);
    assert_eq!(seen.len(), 52);
    for s in 0..4 {
        for r in 0..13 {
            let card = (Rank::from_index(r), Suit::from_index(s));
            assert!(seen.contains(&card));
        }
    }
}

#[test]
fn new_deck_is_shuffled() {
    // The chance that a shuffled deck comes out in unshuffled order in each
    // of three tries is negligible.
    let mut unshuffled: Vec<Card> = Vec::new();
    for s in 0..4 {
        for r in 0..13 {
            unshuffled.push(Card { rank: Rank::from_index(r), suit: Suit::from_index(s) });
        }
    }
    let mut differs = false;
    for _ in 0..3 {
        let mut deck = Deck::new();
        let all = deck.deal(52).unwrap();
        if all != unshuffled {
            differs = true;
        }
    }
    assert!(differs);
}

#[test]
fn deals_come_from_the_top_in_order() {
    let mut deck = Deck::new();
    let first = deck.deal(3).unwrap();
    let second = deck.deal(4).unwrap();
    let rest = deck.deal(45).unwrap();
    let mut all = first.clone();
    all.extend(second.iter().copied());
    all.extend(rest.iter().copied());
    assert_eq!(deck_tally(&all).len(), 52);
    assert_eq!(deck.remaining(), 0);
    assert!(deck.deal(1).is_none());
    assert_eq!(deck.deal(0).unwrap().len(), 0);
}

#[test]
fn rank_and_suit_positions() {
    assert_eq!(Rank::Two.index(), 0);
    assert_eq!(Rank::Ace.index(), 12);
    assert_eq!(Rank::from_index(9), Rank::Jack);
    assert_eq!(Suit::Hearts.index(), 0);
    assert_eq!(Suit::Spades.index(), 3);
    assert_eq!(Suit::from_index(2), Suit::Clubs);
}
