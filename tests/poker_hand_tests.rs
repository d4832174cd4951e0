use card_dealer::card_dealer::{Card, Rank, Suit};
use card_dealer::poker_hand::{evaluate_hand, find_best_hand, Hand, HandRank};
use std::cmp::Ordering;

fn create_card(rank: Rank, suit: Suit) -> Card {
    Card { rank, suit }
}

fn ranks_of(h: &Hand) -> Vec<Rank> {
    h.cards.iter().map(|c| c.rank).collect()
}

#[test]
fn test_best_hand_scenario() {
    let community_cards = vec![
        create_card(Rank::Four, Suit::Spades),
        create_card(Rank::Eight, Suit::Diamonds),
        create_card(Rank::Eight, Suit::Hearts),
        create_card(Rank::Two, Suit::Clubs),
        create_card(Rank::Jack, Suit::Clubs),
    ];

    let player1_cards = vec![
        create_card(Rank::Six, Suit::Spades),
        create_card(Rank::King, Suit::Spades),
    ];

    let player2_cards = vec![
        create_card(Rank::Four, Suit::Diamonds),
        create_card(Rank::Six, Suit::Clubs),
    ];

    let player3_cards = vec![
        create_card(Rank::Seven, Suit::Diamonds),
        create_card(Rank::Jack, Suit::Spades),
    ];

    let player1_hand = find_best_hand(&[player1_cards.clone(), community_cards.clone()].concat());
    let player2_hand = find_best_hand(&[player2_cards.clone(), community_cards.clone()].concat());
    let player3_hand = find_best_hand(&[player3_cards.clone(), community_cards.clone()].concat());

    let mut best_hand = &player1_hand;
    if player2_hand.compare_two_hands(best_hand) == Ordering::Greater {
        best_hand = &player2_hand;
    }
    if player3_hand.compare_two_hands(best_hand) == Ordering::Greater {
        best_hand = &player3_hand;
    }

    println!("Player 1 Hand: {:?}, Rank: {:?}", player1_hand.cards, player1_hand.rank);
    println!("Player 2 Hand: {:?}, Rank: {:?}", player2_hand.cards, player2_hand.rank);
    println!("Player 3 Hand: {:?}, Rank: {:?}", player3_hand.cards, player3_hand.rank);
    println!("Winning Hand: {:?}, Rank: {:?}", best_hand.cards, best_hand.rank);

    assert_eq!(best_hand.rank, HandRank::TwoPair);
}

#[test]
fn category_fixtures() {
    let full_house = vec![
        create_card(Rank::Two, Suit::Spades),
        create_card(Rank::Two, Suit::Diamonds),
        create_card(Rank::Two, Suit::Clubs),
        create_card(Rank::Five, Suit::Hearts),
        create_card(Rank::Five, Suit::Diamonds),
    ];
    assert_eq!(evaluate_hand(&full_house), HandRank::FullHouse);

    let straight_flush = vec![
        create_card(Rank::Nine, Suit::Spades),
        create_card(Rank::Ten, Suit::Spades),
        create_card(Rank::Jack, Suit::Spades),
        create_card(Rank::Queen, Suit::Spades),
        create_card(Rank::King, Suit::Spades),
    ];
    assert_eq!(evaluate_hand(&straight_flush), HandRank::StraightFlush);

    let high_card = vec![
        create_card(Rank::Two, Suit::Spades),
        create_card(Rank::Five, Suit::Diamonds),
        create_card(Rank::Nine, Suit::Clubs),
        create_card(Rank::Jack, Suit::Hearts),
        create_card(Rank::Ace, Suit::Spades),
    ];
    assert_eq!(evaluate_hand(&high_card), HandRank::HighCard);

    let two_pair = vec![
        create_card(Rank::Ace, Suit::Spades),
        create_card(Rank::Ace, Suit::Diamonds),
        create_card(Rank::King, Suit::Clubs),
        create_card(Rank::King, Suit::Hearts),
        create_card(Rank::Two, Suit::Spades),
    ];
    assert_eq!(evaluate_hand(&two_pair), HandRank::TwoPair);
    assert_eq!(Hand::new(two_pair).rank, HandRank::TwoPair);
}

#[test]
fn remaining_categories() {
    let four = vec![
        create_card(Rank::Seven, Suit::Spades),
        create_card(Rank::Seven, Suit::Diamonds),
        create_card(Rank::Seven, Suit::Clubs),
        create_card(Rank::Seven, Suit::Hearts),
        create_card(Rank::Two, Suit::Spades),
    ];
    assert_eq!(evaluate_hand(&four), HandRank::FourOfAKind);

    let flush = vec![
        create_card(Rank::Two, Suit::Hearts),
        create_card(Rank::Six, Suit::Hearts),
        create_card(Rank::Nine, Suit::Hearts),
        create_card(Rank::Jack, Suit::Hearts),
        create_card(Rank::King, Suit::Hearts),
    ];
    assert_eq!(evaluate_hand(&flush), HandRank::Flush);

    let straight = vec![
        create_card(Rank::Ten, Suit::Hearts),
        create_card(Rank::Jack, Suit::Clubs),
        create_card(Rank::Queen, Suit::Hearts),
        create_card(Rank::King, Suit::Spades),
        create_card(Rank::Ace, Suit::Hearts),
    ];
    assert_eq!(evaluate_hand(&straight), HandRank::Straight);

    // The Ace counts high only: A-2-3-4-5 is no straight.
    let wheel = vec![
        create_card(Rank::Ace, Suit::Hearts),
        create_card(Rank::Two, Suit::Clubs),
        create_card(Rank::Three, Suit::Hearts),
        create_card(Rank::Four, Suit::Spades),
        create_card(Rank::Five, Suit::Hearts),
    ];
    assert_eq!(evaluate_hand(&wheel), HandRank::HighCard);

    let trips = vec![
        create_card(Rank::Queen, Suit::Hearts),
        create_card(Rank::Queen, Suit::Clubs),
        create_card(Rank::Queen, Suit::Spades),
        create_card(Rank::Four, Suit::Spades),
        create_card(Rank::Nine, Suit::Hearts),
    ];
    assert_eq!(evaluate_hand(&trips), HandRank::ThreeOfAKind);

    let pair = vec![
        create_card(Rank::Queen, Suit::Hearts),
        create_card(Rank::Queen, Suit::Clubs),
        create_card(Rank::Three, Suit::Spades),
        create_card(Rank::Four, Suit::Spades),
        create_card(Rank::Nine, Suit::Hearts),
    ];
    assert_eq!(evaluate_hand(&pair), HandRank::OnePair);
}

#[test]
fn classification_ignores_card_order() {
    let cards = vec![
        create_card(Rank::Five, Suit::Hearts),
        create_card(Rank::Two, Suit::Spades),
        create_card(Rank::Five, Suit::Diamonds),
        create_card(Rank::Two, Suit::Diamonds),
        create_card(Rank::Two, Suit::Clubs),
    ];
    let mut reversed = cards.clone();
    reversed.reverse();
    assert_eq!(evaluate_hand(&cards), evaluate_hand(&reversed));
    assert_eq!(evaluate_hand(&cards), evaluate_hand(&cards));
    let h = Hand::new(cards.clone());
    assert_eq!(Hand::new(h.cards.clone()).rank, h.rank);
    assert_eq!(h.rank, HandRank::FullHouse);
}

#[test]
fn new_hand_sorts_highest_first() {
    let h = Hand::new(vec![
        create_card(Rank::Three, Suit::Hearts),
        create_card(Rank::Ace, Suit::Clubs),
        create_card(Rank::Nine, Suit::Spades),
        create_card(Rank::Three, Suit::Spades),
        create_card(Rank::King, Suit::Hearts),
    ]);
    assert_eq!(
        ranks_of(&h),
        vec![Rank::Ace, Rank::King, Rank::Nine, Rank::Three, Rank::Three]
    );
    assert_eq!(h.rank, HandRank::OnePair);
}

#[test]
fn order_is_a_strict_weak_order() {
    let a = Hand::new(vec![
        create_card(Rank::King, Suit::Hearts),
        create_card(Rank::King, Suit::Clubs),
        create_card(Rank::Nine, Suit::Spades),
        create_card(Rank::Four, Suit::Spades),
        create_card(Rank::Two, Suit::Hearts),
    ]);
    let b = Hand::new(vec![
        create_card(Rank::King, Suit::Spades),
        create_card(Rank::King, Suit::Diamonds),
        create_card(Rank::Nine, Suit::Hearts),
        create_card(Rank::Three, Suit::Spades),
        create_card(Rank::Two, Suit::Clubs),
    ]);
    let c = Hand::new(vec![
        create_card(Rank::Ace, Suit::Hearts),
        create_card(Rank::Queen, Suit::Clubs),
        create_card(Rank::Nine, Suit::Clubs),
        create_card(Rank::Four, Suit::Hearts),
        create_card(Rank::Two, Suit::Diamonds),
    ]);
    assert_eq!(a.compare_two_hands(&a), Ordering::Equal);
    // Same category and kickers down to the fourth card, where Four beats Three.
    assert_eq!(a.compare_two_hands(&b), Ordering::Greater);
    assert_eq!(b.compare_two_hands(&a), Ordering::Less);
    // A pair beats a high card, whatever the kickers.
    assert_eq!(b.compare_two_hands(&c), Ordering::Greater);
    assert_eq!(c.compare_two_hands(&b), Ordering::Less);
    assert_eq!(a.compare_two_hands(&c), Ordering::Greater);
}

#[test]
fn suits_never_break_ties() {
    let a = Hand::new(vec![
        create_card(Rank::Ace, Suit::Hearts),
        create_card(Rank::Queen, Suit::Clubs),
        create_card(Rank::Nine, Suit::Clubs),
        create_card(Rank::Four, Suit::Hearts),
        create_card(Rank::Two, Suit::Diamonds),
    ]);
    let b = Hand::new(vec![
        create_card(Rank::Ace, Suit::Spades),
        create_card(Rank::Queen, Suit::Diamonds),
        create_card(Rank::Nine, Suit::Hearts),
        create_card(Rank::Four, Suit::Clubs),
        create_card(Rank::Two, Suit::Clubs),
    ]);
    assert_eq!(a.compare_two_hands(&b), Ordering::Equal);
    assert_eq!(b.compare_two_hands(&a), Ordering::Equal);
}

#[test]
fn best_hand_beats_every_five_card_subset() {
    let cards = vec![
        create_card(Rank::Nine, Suit::Hearts),
        create_card(Rank::Jack, Suit::Hearts),
        create_card(Rank::Five, Suit::Clubs),
        create_card(Rank::Ace, Suit::Spades),
        create_card(Rank::Jack, Suit::Diamonds),
        create_card(Rank::Nine, Suit::Clubs),
        create_card(Rank::Ten, Suit::Hearts),
    ];
    let best = find_best_hand(&cards);
    assert_eq!(best.cards.len(), 5);
    assert_eq!(best.rank, HandRank::TwoPair);
    assert_eq!(
        ranks_of(&best),
        vec![Rank::Ace, Rank::Jack, Rank::Jack, Rank::Nine, Rank::Nine]
    );
    let mut subsets = 0;
    for a in 0..7 {
        for b in (a + 1)..7 {
            for c in (b + 1)..7 {
                for d in (c + 1)..7 {
                    for e in (d + 1)..7 {
                        let sub = Hand::new(vec![cards[a], cards[b], cards[c], cards[d], cards[e]]);
                        assert_ne!(best.compare_two_hands(&sub), Ordering::Less);
                        assert!(best.rank >= sub.rank);
                        subsets += 1;
                    }
                }
            }
        }
    }
    assert_eq!(subsets, 21);
}

#[test]
fn best_hand_finds_straight_flush_among_seven() {
    let cards = vec![
        create_card(Rank::Two, Suit::Clubs),
        create_card(Rank::Nine, Suit::Spades),
        create_card(Rank::Ten, Suit::Spades),
        create_card(Rank::Ace, Suit::Hearts),
        create_card(Rank::Jack, Suit::Spades),
        create_card(Rank::Queen, Suit::Spades),
        create_card(Rank::King, Suit::Spades),
    ];
    let best = find_best_hand(&cards);
    assert_eq!(best.rank, HandRank::StraightFlush);
    assert!(best.cards.iter().all(|c| c.suit == Suit::Spades));
}

#[test]
fn best_hand_of_too_few_cards_is_empty_high_card() {
    let cards = vec![
        create_card(Rank::Ace, Suit::Hearts),
        create_card(Rank::Ace, Suit::Clubs),
    ];
    let best = find_best_hand(&cards);
    assert_eq!(best.rank, HandRank::HighCard);
    assert!(best.cards.is_empty());
    let none = find_best_hand(&[]);
    assert_eq!(none.rank, HandRank::HighCard);
    assert!(none.cards.is_empty());
}

#[test]
fn best_hand_of_exactly_five_is_those_five() {
    let cards = vec![
        create_card(Rank::Two, Suit::Hearts),
        create_card(Rank::Seven, Suit::Clubs),
        create_card(Rank::Seven, Suit::Hearts),
        create_card(Rank::Jack, Suit::Spades),
        create_card(Rank::Four, Suit::Diamonds),
    ];
    let best = find_best_hand(&cards);
    assert_eq!(best.rank, HandRank::OnePair);
    assert_eq!(
        ranks_of(&best),
        vec![Rank::Jack, Rank::Seven, Rank::Seven, Rank::Four, Rank::Two]
    );
}

#[test]
fn category_positions() {
    assert_eq!(HandRank::HighCard.index(), 0);
    assert_eq!(HandRank::FullHouse.index(), 6);
    assert_eq!(HandRank::StraightFlush.index(), 8);
    assert!(HandRank::Flush > HandRank::Straight);
}
