use rand::seq::SliceRandom;
use vstd::prelude::*;

verus! {

/// The four suits; they carry no order for ranking purposes.
#[derive(Debug, Clone, Copy, PartialEq, Eq, Structural, Hash)]
pub enum Suit {
    Hearts,
    Diamonds,
    Clubs,
    Spades,
}

/// The thirteen ranks, from Two (lowest) to Ace (highest).
#[derive(Debug, Clone, Copy, PartialEq, Eq, Structural, PartialOrd, Ord, Hash)]
pub enum Rank {
    Two,
    Three,
    Four,
    Five,
    Six,
    Seven,
    Eight,
    Nine,
    Ten,
    Jack,
    Queen,
    King,
    Ace,
}

#[derive(Debug, Clone, Copy, PartialEq, Eq, Structural, Hash)]
pub struct Card {
    pub rank: Rank,
    pub suit: Suit,
}

impl Suit {
    /// Position of the suit in declaration order, 0 to 3.
    pub open spec fn value(self) -> int {
        match self {
            Suit::Hearts => 0,
            Suit::Diamonds => 1,
            Suit::Clubs => 2,
            Suit::Spades => 3,
        }
    }

    pub fn index(&self) -> (r: usize)
        ensures
            r as int == self.value(),
            r < 4,
    {
        match self {
            Suit::Hearts => 0,
            Suit::Diamonds => 1,
            Suit::Clubs => 2,
            Suit::Spades => 3,
        }
    }

    pub fn from_index(i: usize) -> (s: Suit)
        requires
            i < 4,
        ensures
            s.value() == i as int,
    {
        if i == 0 {
            Suit::Hearts
        } else if i == 1 {
            Suit::Diamonds
        } else if i == 2 {
            Suit::Clubs
        } else {
            Suit::Spades
        }
    }
}

impl Rank {
    /// Position of the rank in ascending order: Two is 0, Ace is 12.
    pub open spec fn value(self) -> int {
        match self {
            Rank::Two => 0,
            Rank::Three => 1,
            Rank::Four => 2,
            Rank::Five => 3,
            Rank::Six => 4,
            Rank::Seven => 5,
            Rank::Eight => 6,
            Rank::Nine => 7,
            Rank::Ten => 8,
            Rank::Jack => 9,
            Rank::Queen => 10,
            Rank::King => 11,
            Rank::Ace => 12,
        }
    }

    pub fn index(&self) -> (r: usize)
        ensures
            r as int == self.value(),
            r < 13,
    {
        match self {
            Rank::Two => 0,
            Rank::Three => 1,
            Rank::Four => 2,
            Rank::Five => 3,
            Rank::Six => 4,
            Rank::Seven => 5,
            Rank::Eight => 6,
            Rank::Nine => 7,
            Rank::Ten => 8,
            Rank::Jack => 9,
            Rank::Queen => 10,
            Rank::King => 11,
            Rank::Ace => 12,
        }
    }

    pub fn from_index(i: usize) -> (r: Rank)
        requires
            i < 13,
        ensures
            r.value() == i as int,
    {
        if i == 0 {
            Rank::Two
        } else if i == 1 {
            Rank::Three
        } else if i == 2 {
            Rank::Four
        } else if i == 3 {
            Rank::Five
        } else if i == 4 {
            Rank::Six
        } else if i == 5 {
            Rank::Seven
        } else if i == 6 {
            Rank::Eight
        } else if i == 7 {
            Rank::Nine
        } else if i == 8 {
            Rank::Ten
        } else if i == 9 {
            Rank::Jack
        } else if i == 10 {
            Rank::Queen
        } else if i == 11 {
            Rank::King
        } else {
            Rank::Ace
        }
    }
}

/// The card at position `i` of an unshuffled deck: suits in declaration
/// order, and within each suit the ranks from Two to Ace.
pub open spec fn standard_card(i: int) -> Card {
    Card { rank: rank_with_value(i % 13), suit: suit_with_value(i / 13) }
}

pub open spec fn rank_with_value(v: int) -> Rank {
    choose|r: Rank| r.value() == v
}

pub open spec fn suit_with_value(v: int) -> Suit {
    choose|s: Suit| s.value() == v
}

/// All 52 cards, each exactly once, in unshuffled order.
pub open spec fn full_deck() -> Seq<Card> {
    Seq::new(52, |i: int| standard_card(i))
}

/// Relies on rand's `SliceRandom::shuffle`, driven by `rand::thread_rng`:
/// it only swaps elements, so the cards come back in some order, none lost
/// or added. Which order is left to chance.
#[verifier::external_body]
fn shuffle_cards(cards: &mut Vec<Card>)
    ensures
        final(cards)@.to_multiset() == old(cards)@.to_multiset(),
        final(cards)@.len() == old(cards)@.len(),
{
    cards.shuffle(&mut rand::thread_rng());
}

#[derive(Debug)]
pub struct Deck {
    cards: Vec<Card>,
}

impl View for Deck {
    type V = Seq<Card>;

    /// The cards still in the deck, the next one to be dealt first.
    closed spec fn view(&self) -> Seq<Card> {
        self.cards@
    }
}

impl Deck {
    /// A full deck of 52 distinct cards in shuffled order.
    pub fn new() -> (deck: Self)
        ensures
            deck@.len() == 52,
            deck@.to_multiset() == full_deck().to_multiset(),
    {
        let mut cards: Vec<Card> = Vec::with_capacity(52);
        let mut i: usize = 0;
        while i < 52
            invariant
                i <= 52,
                cards@ == full_deck().take(i as int),
            decreases 52 - i,
        {
            let rank = Rank::from_index(i % 13);
            let suit = Suit::from_index(i / 13);
            proof {
                assert(rank == rank_with_value(i as int % 13));
                assert(suit == suit_with_value(i as int / 13));
            }
            cards.push(Card { rank, suit });
            proof {
                assert(cards@ =~= full_deck().take(i as int + 1));
            }
            i = i + 1;
        }
        proof {
            assert(cards@ =~= full_deck());
        }
        shuffle_cards(&mut cards);
        Deck { cards }
    }

    /// Deals `count` cards from the top of the deck, or `None` (leaving the
    /// deck as it is) when fewer than `count` remain.
    pub fn deal(&mut self, count: usize) -> (dealt: Option<Vec<Card>>)
        ensures
            count > old(self)@.len() ==> dealt is None && final(self)@ == old(self)@,
            count <= old(self)@.len() ==> (dealt matches Some(v) && v@ == old(self)@.take(
                count as int,
            ) && final(self)@ == old(self)@.skip(count as int)),
    {
        if count > self.cards.len() {
            return None;
        }
        let mut rest = self.cards.split_off(count);
        std::mem::swap(&mut self.cards, &mut rest);
        proof {
            assert(rest@ =~= old(self)@.take(count as int));
            assert(self.cards@ =~= old(self)@.skip(count as int));
        }
        Some(rest)
    }

    /// The number of cards left to deal.
    pub fn remaining(&self) -> (n: usize)
        ensures
            n == self@.len(),
    {
        self.cards.len()
    }

    /// Returns the deck to a full, freshly shuffled state.
    pub fn reset(&mut self)
        ensures
            final(self)@.len() == 52,
            final(self)@.to_multiset() == full_deck().to_multiset(),
    {
        *self = Self::new();
    }
}

} // verus!
