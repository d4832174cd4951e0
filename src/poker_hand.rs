use crate::card_dealer::Card;
use itertools::Itertools;
use std::cmp::Ordering;
use vstd::multiset::Multiset;
use vstd::prelude::*;
use vstd::relations::{sorted_by, total_ordering};

verus! {

/// The nine hand categories, weakest first.
#[derive(Debug, Clone, Copy, PartialEq, Eq, Structural, PartialOrd, Ord, Hash)]
pub enum HandRank {
    HighCard,
    OnePair,
    TwoPair,
    ThreeOfAKind,
    Straight,
    Flush,
    FullHouse,
    FourOfAKind,
    StraightFlush,
}

impl HandRank {
    /// Position of the category, HighCard being 0 and StraightFlush 8.
    pub open spec fn value(self) -> int {
        match self {
            HandRank::HighCard => 0,
            HandRank::OnePair => 1,
            HandRank::TwoPair => 2,
            HandRank::ThreeOfAKind => 3,
            HandRank::Straight => 4,
            HandRank::Flush => 5,
            HandRank::FullHouse => 6,
            HandRank::FourOfAKind => 7,
            HandRank::StraightFlush => 8,
        }
    }

    pub fn index(&self) -> (r: usize)
        ensures
            r as int == self.value(),
    {
        match self {
            HandRank::HighCard => 0,
            HandRank::OnePair => 1,
            HandRank::TwoPair => 2,
            HandRank::ThreeOfAKind => 3,
            HandRank::Straight => 4,
            HandRank::Flush => 5,
            HandRank::FullHouse => 6,
            HandRank::FourOfAKind => 7,
            HandRank::StraightFlush => 8,
        }
    }
}

// ---------------------------------------------------------------------
// The mathematical model of classification.
// ---------------------------------------------------------------------
/// The rank positions of the cards, in the order of the cards.
pub open spec fn rank_values(cards: Seq<Card>) -> Seq<int> {
    cards.map_values(|c: Card| c.rank.value())
}

/// The suit positions of the cards, in the order of the cards.
pub open spec fn suit_values(cards: Seq<Card>) -> Seq<int> {
    cards.map_values(|c: Card| c.suit.value())
}

/// How many of the cards have the rank at position `r`.
pub open spec fn rank_count(cards: Seq<Card>, r: int) -> nat {
    rank_values(cards).to_multiset().count(r)
}

/// How many of the cards have the suit at position `s`.
pub open spec fn suit_count(cards: Seq<Card>, s: int) -> nat {
    suit_values(cards).to_multiset().count(s)
}

/// For each of the 13 ranks, how many cards carry it.
pub open spec fn rank_counts(cards: Seq<Card>) -> Seq<int> {
    Seq::new(13, |r: int| rank_count(cards, r) as int)
}

/// For each of the 4 suits, how many cards carry it.
pub open spec fn suit_counts(cards: Seq<Card>) -> Seq<int> {
    Seq::new(4, |s: int| suit_count(cards, s) as int)
}

/// Some suit is held by exactly five cards.
pub open spec fn flush_in(suit_counts: Seq<int>) -> bool {
    exists|s: int| 0 <= s < suit_counts.len() && suit_counts[s] == 5
}

/// The five positions from `lo` on are all present.
pub open spec fn run_at(counts: Seq<int>, lo: int) -> bool {
    forall|j: int| lo <= j < lo + 5 ==> #[trigger] counts[j] > 0
}

/// Five consecutive ranks are present (Ace counts high only).
pub open spec fn straight_in(rank_counts: Seq<int>) -> bool {
    exists|lo: int| 0 <= lo && lo + 5 <= rank_counts.len() && #[trigger] run_at(rank_counts, lo)
}

/// How many ranks are held by exactly `n` cards.
pub open spec fn ranks_held(counts: Seq<int>, n: int) -> nat {
    counts.to_multiset().count(n)
}

/// The category of a set of cards under the rules, tried in order of
/// precedence.
pub open spec fn classify(cards: Seq<Card>) -> HandRank {
    let ranks = rank_counts(cards);
    let flush = flush_in(suit_counts(cards));
    let straight = straight_in(ranks);
    if flush && straight {
        HandRank::StraightFlush
    } else if ranks.contains(4) {
        HandRank::FourOfAKind
    } else if ranks.contains(3) && ranks.contains(2) {
        HandRank::FullHouse
    } else if flush {
        HandRank::Flush
    } else if straight {
        HandRank::Straight
    } else if ranks.contains(3) {
        HandRank::ThreeOfAKind
    } else if ranks_held(ranks, 2) == 2 {
        HandRank::TwoPair
    } else if ranks.contains(2) {
        HandRank::OnePair
    } else {
        HandRank::HighCard
    }
}

/// Counts read as mathematical integers.
pub open spec fn widen(counts: Seq<usize>) -> Seq<int> {
    counts.map_values(|c: usize| c as int)
}

// ---------------------------------------------------------------------
// Facts about tallies.
// ---------------------------------------------------------------------
proof fn lemma_tally_step(vals: Seq<int>, k: int, y: int)
    requires
        0 <= k < vals.len(),
    ensures
        vals.take(k + 1).to_multiset().count(y) == vals.take(k).to_multiset().count(y) + (if vals[k]
            == y {
            1int
        } else {
            0int
        }),
{
    broadcast use vstd::seq_lib::group_to_multiset_ensures;
    broadcast use vstd::multiset::group_multiset_axioms;

    assert(vals.take(k + 1) =~= vals.take(k).push(vals[k]));
}

proof fn lemma_tally_start(vals: Seq<int>, y: int)
    ensures
        vals.take(0).to_multiset().count(y) == 0,
{
    broadcast use vstd::seq_lib::group_to_multiset_ensures;
    broadcast use vstd::multiset::group_multiset_axioms;

    assert(vals.take(0) =~= Seq::<int>::empty());
    assert(vals.take(0).to_multiset() =~= Multiset::<int>::empty());
}

proof fn lemma_tally_bound(vals: Seq<int>, y: int)
    ensures
        vals.to_multiset().count(y) <= vals.len(),
    decreases vals.len(),
{
    broadcast use vstd::seq_lib::group_to_multiset_ensures;
    broadcast use vstd::multiset::group_multiset_axioms;

    if vals.len() > 0 {
        let k = vals.len() - 1;
        lemma_tally_step(vals, k, y);
        lemma_tally_bound(vals.take(k), y);
        assert(vals.take(k + 1) =~= vals);
    }
}

// ---------------------------------------------------------------------
// Classification.
// ---------------------------------------------------------------------
/// Counts the number of occurrences of each suit.
fn count_suits(hand: &[Card]) -> (suits: Vec<usize>)
    ensures
        widen(suits@) == suit_counts(hand@),
{
    let mut suits: Vec<usize> = vec![0; 4];
    let mut k: usize = 0;
    proof {
        assert forall|s: int| 0 <= s < 4 implies suits@[s] == suit_values(hand@).take(
            0,
        ).to_multiset().count(s) by {
            lemma_tally_start(suit_values(hand@), s);
        }
    }
    while k < hand.len()
        invariant
            k <= hand@.len(),
            suits@.len() == 4,
            forall|s: int|
                0 <= s < 4 ==> suits@[s] == suit_values(hand@).take(k as int).to_multiset().count(
                    s,
                ),
            forall|s: int| 0 <= s < 4 ==> suits@[s] <= k,
        decreases hand@.len() - k,
    {
        let s = hand[k].suit.index();
        proof {
            assert forall|t: int| 0 <= t < 4 implies suit_values(hand@).take(k + 1).to_multiset().count(t)
                == suit_values(hand@).take(k as int).to_multiset().count(t) + (if s == t {
                1int
            } else {
                0int
            }) by {
                lemma_tally_step(suit_values(hand@), k as int, t);
            }
        }
        let c = suits[s];
        suits.set(s, c + 1);
        k = k + 1;
    }
    proof {
        assert(suit_values(hand@).take(hand@.len() as int) =~= suit_values(hand@));
        assert(widen(suits@) =~= suit_counts(hand@));
    }
    suits
}

/// Counts the number of occurrences of each rank.
fn count_ranks(hand: &[Card]) -> (ranks: Vec<usize>)
    ensures
        widen(ranks@) == rank_counts(hand@),
{
    let mut ranks: Vec<usize> = vec![0; 13];
    let mut k: usize = 0;
    proof {
        assert forall|r: int| 0 <= r < 13 implies ranks@[r] == rank_values(hand@).take(
            0,
        ).to_multiset().count(r) by {
            lemma_tally_start(rank_values(hand@), r);
        }
    }
    while k < hand.len()
        invariant
            k <= hand@.len(),
            ranks@.len() == 13,
            forall|r: int|
                0 <= r < 13 ==> ranks@[r] == rank_values(hand@).take(k as int).to_multiset().count(
                    r,
                ),
            forall|r: int| 0 <= r < 13 ==> ranks@[r] <= k,
        decreases hand@.len() - k,
    {
        let r = hand[k].rank.index();
        proof {
            assert forall|t: int| 0 <= t < 13 implies rank_values(hand@).take(k + 1).to_multiset().count(t)
                == rank_values(hand@).take(k as int).to_multiset().count(t) + (if r == t {
                1int
            } else {
                0int
            }) by {
                lemma_tally_step(rank_values(hand@), k as int, t);
            }
        }
        let c = ranks[r];
        ranks.set(r, c + 1);
        k = k + 1;
    }
    proof {
        assert(rank_values(hand@).take(hand@.len() as int) =~= rank_values(hand@));
        assert(widen(ranks@) =~= rank_counts(hand@));
    }
    ranks
}

/// Checks if the hand is a flush: some suit is held by exactly five cards.
fn check_flush(suits: &[usize]) -> (b: bool)
    ensures
        b == flush_in(widen(suits@)),
{
    let mut i: usize = 0;
    while i < suits.len()
        invariant
            i <= suits@.len(),
            forall|s: int| 0 <= s < i ==> suits@[s] != 5,
        decreases suits@.len() - i,
    {
        if suits[i] == 5 {
            assert(widen(suits@)[i as int] == 5);
            return true;
        }
        i = i + 1;
    }
    proof {
        assert forall|s: int| 0 <= s < widen(suits@).len() implies widen(suits@)[s] != 5 by {
            assert(suits@[s] != 5);
        }
    }
    false
}

/// Length of the run of non-zero counts that ends just before position `i`.
spec fn run_before(counts: Seq<usize>, i: int) -> nat
    decreases i,
{
    if i <= 0 {
        0
    } else if counts[i - 1] > 0 {
        run_before(counts, i - 1) + 1
    } else {
        0
    }
}

proof fn lemma_run_covers(counts: Seq<usize>, i: int, m: int)
    requires
        0 <= m <= run_before(counts, i),
        i <= counts.len(),
    ensures
        forall|j: int| i - m <= j < i ==> counts[j] > 0,
    decreases i,
{
    if m > 0 {
        lemma_run_covers(counts, i - 1, m - 1);
    }
}

proof fn lemma_run_reaches(counts: Seq<usize>, i: int, lo: int)
    requires
        0 <= lo <= i <= counts.len(),
        forall|j: int| lo <= j < i ==> counts[j] > 0,
    ensures
        run_before(counts, i) >= i - lo,
    decreases i - lo,
{
    if i > lo {
        lemma_run_reaches(counts, i - 1, lo);
    }
}

/// Checks if the hand is a straight: five consecutive ranks are present.
fn check_straight(ranks: &[usize]) -> (b: bool)
    ensures
        b == straight_in(widen(ranks@)),
{
    let ghost w = widen(ranks@);
    let mut consecutive: usize = 0;
    let mut i: usize = 0;
    while i < ranks.len()
        invariant
            i <= ranks@.len(),
            w == widen(ranks@),
            consecutive == run_before(ranks@, i as int),
            consecutive < 5,
            consecutive <= i,
            forall|lo: int| 0 <= lo && lo + 5 <= i ==> !#[trigger] run_at(w, lo),
        decreases ranks@.len() - i,
    {
        if ranks[i] > 0 {
            consecutive = consecutive + 1;
            if consecutive == 5 {
                proof {
                    lemma_run_covers(ranks@, i + 1, 5);
                    let lo = i + 1 - 5;
                    assert forall|j: int| lo <= j < lo + 5 implies #[trigger] w[j] > 0 by {
                        assert(ranks@[j] > 0);
                    }
                    assert(run_at(w, lo));
                }
                return true;
            }
        } else {
            consecutive = 0;
        }
        proof {
            let lo = i + 1 - 5;
            if lo >= 0 && run_at(w, lo) {
                assert forall|j: int| lo <= j < i + 1 implies ranks@[j] > 0 by {
                    assert(w[j] > 0);
                }
                lemma_run_reaches(ranks@, i + 1, lo);
            }
        }
        i = i + 1;
    }
    false
}

/// Whether some count equals `n`.
fn has_count(counts: &[usize], n: usize) -> (b: bool)
    ensures
        b == widen(counts@).contains(n as int),
{
    let mut i: usize = 0;
    while i < counts.len()
        invariant
            i <= counts@.len(),
            forall|j: int| 0 <= j < i ==> counts@[j] != n,
        decreases counts@.len() - i,
    {
        if counts[i] == n {
            assert(widen(counts@)[i as int] == n as int);
            return true;
        }
        i = i + 1;
    }
    proof {
        assert forall|j: int| 0 <= j < widen(counts@).len() implies widen(counts@)[j] != n as int by {
            assert(counts@[j] != n);
        }
    }
    false
}

/// How many counts equal `n`.
fn count_equal(counts: &[usize], n: usize) -> (m: usize)
    ensures
        m == ranks_held(widen(counts@), n as int),
{
    let ghost w = widen(counts@);
    let mut m: usize = 0;
    let mut i: usize = 0;
    proof {
        lemma_tally_start(w, n as int);
    }
    while i < counts.len()
        invariant
            i <= counts@.len(),
            w == widen(counts@),
            m == w.take(i as int).to_multiset().count(n as int),
            m <= i,
        decreases counts@.len() - i,
    {
        proof {
            lemma_tally_step(w, i as int, n as int);
        }
        if counts[i] == n {
            m = m + 1;
        }
        i = i + 1;
    }
    proof {
        assert(w.take(counts@.len() as int) =~= w);
    }
    m
}

/// Evaluates the category of the given cards.
pub fn evaluate_hand(hand: &[Card]) -> (r: HandRank)
    ensures
        r == classify(hand@),
{
    let suits = count_suits(hand);
    let ranks = count_ranks(hand);
    let is_flush = check_flush(suits.as_slice());
    let is_straight = check_straight(ranks.as_slice());
    if is_flush && is_straight {
        HandRank::StraightFlush
    } else if has_count(ranks.as_slice(), 4) {
        HandRank::FourOfAKind
    } else if has_count(ranks.as_slice(), 3) && has_count(ranks.as_slice(), 2) {
        HandRank::FullHouse
    } else if is_flush {
        HandRank::Flush
    } else if is_straight {
        HandRank::Straight
    } else if has_count(ranks.as_slice(), 3) {
        HandRank::ThreeOfAKind
    } else if count_equal(ranks.as_slice(), 2) == 2 {
        HandRank::TwoPair
    } else if has_count(ranks.as_slice(), 2) {
        HandRank::OnePair
    } else {
        HandRank::HighCard
    }
}

// ---------------------------------------------------------------------
// Ordering of hands.
// ---------------------------------------------------------------------
/// The relation "at least": sorting by it puts the largest first.
pub open spec fn descending() -> spec_fn(int, int) -> bool {
    |x: int, y: int| x >= y
}

/// The rank positions of the cards, highest first.
pub open spec fn desc_ranks(cards: Seq<Card>) -> Seq<int> {
    rank_values(cards).sort_by(descending())
}

/// The cards are in order of non-increasing rank.
pub open spec fn rank_descending(cards: Seq<Card>) -> bool {
    forall|i: int, j: int|
        0 <= i < j < cards.len() ==> #[trigger] cards[i].rank.value() >= #[trigger] cards[j].rank.value()
}

pub open spec fn cmp_values(x: int, y: int) -> Ordering {
    if x > y {
        Ordering::Greater
    } else if x < y {
        Ordering::Less
    } else {
        Ordering::Equal
    }
}

/// Lexicographic comparison, position by position; where one sequence is a
/// prefix of the other, the shorter one is the smaller.
pub open spec fn lex_cmp(a: Seq<int>, b: Seq<int>) -> Ordering
    decreases a.len(),
{
    if a.len() == 0 {
        if b.len() == 0 {
            Ordering::Equal
        } else {
            Ordering::Less
        }
    } else if b.len() == 0 {
        Ordering::Greater
    } else if a[0] != b[0] {
        cmp_values(a[0], b[0])
    } else {
        lex_cmp(a.drop_first(), b.drop_first())
    }
}

/// The order of hands: category first, then the ranks, highest first,
/// position by position. Suits never matter.
pub open spec fn hand_order(ra: HandRank, ca: Seq<Card>, rb: HandRank, cb: Seq<Card>) -> Ordering {
    if ra.value() != rb.value() {
        cmp_values(ra.value(), rb.value())
    } else {
        lex_cmp(desc_ranks(ca), desc_ranks(cb))
    }
}

/// The order of two sets of cards, each taken as the hand it makes.
pub open spec fn cards_order(a: Seq<Card>, b: Seq<Card>) -> Ordering {
    hand_order(classify(a), a, classify(b), b)
}

proof fn lemma_descending_total()
    ensures
        total_ordering(descending()),
{
    let r = descending();
    assert(vstd::relations::reflexive(r));
    assert(vstd::relations::antisymmetric(r));
    assert(vstd::relations::transitive(r));
    assert(vstd::relations::strongly_connected(r));
}

/// Mapping two sequences with the same elements gives two sequences with the
/// same elements.
proof fn lemma_map_values_to_multiset<A>(a: Seq<A>, b: Seq<A>, f: spec_fn(A) -> int)
    requires
        a.to_multiset() == b.to_multiset(),
    ensures
        a.map_values(f).to_multiset() == b.map_values(f).to_multiset(),
    decreases a.len(),
{
    broadcast use vstd::seq_lib::group_to_multiset_ensures;
    broadcast use vstd::multiset::group_multiset_axioms;

    if a.len() == 0 {
        assert(b.to_multiset().len() == 0);
        assert(a.map_values(f) =~= Seq::<int>::empty());
        assert(b.map_values(f) =~= Seq::<int>::empty());
    } else {
        let x = a.last();
        let a2 = a.drop_last();
        assert(a =~= a2.push(x));
        assert(a.to_multiset().count(x) > 0);
        assert(b.contains(x));
        let j = choose|j: int| 0 <= j < b.len() && b[j] == x;
        let b2 = b.remove(j);
        assert(a2.to_multiset() =~= a.to_multiset().remove(x));
        assert(b2.to_multiset() =~= b.to_multiset().remove(x));
        lemma_map_values_to_multiset(a2, b2, f);
        assert(a.map_values(f) =~= a2.map_values(f).push(f(x)));
        assert(b2.map_values(f) =~= b.map_values(f).remove(j));
        assert(b.map_values(f).to_multiset().count(f(x)) > 0) by {
            assert(b.map_values(f)[j] == f(x));
            assert(b.map_values(f).contains(f(x)));
        }
        assert(b.map_values(f).to_multiset() =~= b2.map_values(f).to_multiset().insert(f(x)));
    }
}

/// The category and the order-relevant ranks of a set of cards do not depend
/// on the order in which the cards are listed.
pub proof fn lemma_same_cards_same_hand(a: Seq<Card>, b: Seq<Card>)
    requires
        a.to_multiset() == b.to_multiset(),
    ensures
        classify(a) == classify(b),
        desc_ranks(a) == desc_ranks(b),
        rank_counts(a) == rank_counts(b),
        suit_counts(a) == suit_counts(b),
{
    lemma_map_values_to_multiset(a, b, |c: Card| c.rank.value());
    lemma_map_values_to_multiset(a, b, |c: Card| c.suit.value());
    assert(rank_values(a) == a.map_values(|c: Card| c.rank.value()));
    assert(rank_counts(a) =~= rank_counts(b));
    assert(suit_counts(a) =~= suit_counts(b));
    lemma_descending_total();
    rank_values(a).lemma_sort_by_ensures(descending());
    rank_values(b).lemma_sort_by_ensures(descending());
    vstd::seq_lib::lemma_sorted_unique(desc_ranks(a), desc_ranks(b), descending());
}

/// For cards listed in non-increasing rank order, the ranks as listed are the
/// ranks sorted highest first.
proof fn lemma_desc_ranks_of_sorted(cards: Seq<Card>, sorted: Seq<Card>)
    requires
        sorted.to_multiset() == cards.to_multiset(),
        rank_descending(sorted),
    ensures
        desc_ranks(cards) == rank_values(sorted),
{
    lemma_same_cards_same_hand(cards, sorted);
    lemma_descending_total();
    rank_values(sorted).lemma_sort_by_ensures(descending());
    lemma_map_values_to_multiset(sorted, cards, |c: Card| c.rank.value());
    assert(sorted_by(rank_values(sorted), descending())) by {
        assert forall|i: int, j: int| 0 <= i < j < rank_values(sorted).len() implies #[trigger] (descending())(
            rank_values(sorted)[i],
            rank_values(sorted)[j],
        ) by {
            assert(sorted[i].rank.value() >= sorted[j].rank.value());
        }
    }
    vstd::seq_lib::lemma_sorted_unique(rank_values(sorted), desc_ranks(cards), descending());
}

/// Copies the cards into non-increasing rank order.
fn sorted_by_rank(cards: &[Card]) -> (out: Vec<Card>)
    ensures
        out@.to_multiset() == cards@.to_multiset(),
        out@.len() == cards@.len(),
        rank_descending(out@),
{
    broadcast use vstd::seq_lib::group_to_multiset_ensures;

    let mut out: Vec<Card> = Vec::new();
    let mut k: usize = 0;
    while k < cards.len()
        invariant
            k <= cards@.len(),
            out@.to_multiset() == cards@.take(k as int).to_multiset(),
            rank_descending(out@),
        decreases cards@.len() - k,
    {
        let card = cards[k];
        let x = card.rank.index();
        let mut j: usize = 0;
        while j < out.len() && out[j].rank.index() >= x
            invariant
                j <= out@.len(),
                forall|t: int| 0 <= t < j ==> out@[t].rank.value() >= x,
            decreases out@.len() - j,
        {
            j = j + 1;
        }
        let ghost before = out@;
        out.insert(j, card);
        proof {
            assert(forall|t: int| j <= t < before.len() ==> before[t].rank.value() < x) by {
                assert forall|t: int| j <= t < before.len() implies before[t].rank.value() < x by {
                    assert(before[j as int].rank.value() >= before[t].rank.value() || t == j);
                }
            }
            assert forall|a: int, b: int| 0 <= a < b < out@.len() implies #[trigger] out@[a].rank.value()
                >= #[trigger] out@[b].rank.value() by {
                if a < j && b < j {
                    assert(out@[a] == before[a] && out@[b] == before[b]);
                } else if a < j && b == j {
                    assert(out@[a] == before[a]);
                } else if a < j {
                    assert(out@[a] == before[a] && out@[b] == before[b - 1]);
                } else if a == j {
                    assert(out@[b] == before[b - 1]);
                } else {
                    assert(out@[a] == before[a - 1] && out@[b] == before[b - 1]);
                }
            }
            assert(cards@.take(k + 1) =~= cards@.take(k as int).push(card));
            vstd::seq_lib::to_multiset_insert(before, j as int, card);
            vstd::seq_lib::to_multiset_build(cards@.take(k as int), card);
        }
        k = k + 1;
    }
    proof {
        assert(cards@.take(cards@.len() as int) =~= cards@);
        assert(out@.to_multiset().len() == cards@.to_multiset().len());
    }
    out
}

/// A poker hand: its cards and its category.
#[derive(Debug, Clone)]
pub struct Hand {
    pub cards: Vec<Card>,
    pub rank: HandRank,
}

impl Hand {
    /// Five cards, highest rank first, carrying their own category.
    pub open spec fn wf(self) -> bool {
        &&& self.cards@.len() == 5
        &&& rank_descending(self.cards@)
        &&& self.rank == classify(self.cards@)
    }

    /// Where this hand stands against `other`.
    pub open spec fn order(self, other: Hand) -> Ordering {
        hand_order(self.rank, self.cards@, other.rank, other.cards@)
    }

    /// Builds a hand from the given cards, sorted highest rank first and
    /// classified.
    pub fn new(cards: Vec<Card>) -> (h: Self)
        ensures
            h.cards@.to_multiset() == cards@.to_multiset(),
            h.cards@.len() == cards@.len(),
            rank_descending(h.cards@),
            h.rank == classify(cards@),
            h.rank == classify(h.cards@),
    {
        let sorted = sorted_by_rank(cards.as_slice());
        let rank = evaluate_hand(sorted.as_slice());
        proof {
            lemma_same_cards_same_hand(cards@, sorted@);
        }
        Hand { cards: sorted, rank }
    }

    /// Compares two hands: by category, then by ranks highest first.
    pub fn compare_two_hands(&self, other: &Self) -> (o: Ordering)
        ensures
            o == self.order(*other),
    {
        let a = self.rank.index();
        let b = other.rank.index();
        if a > b {
            return Ordering::Greater;
        }
        if a < b {
            return Ordering::Less;
        }
        let self_sorted = sorted_by_rank(self.cards.as_slice());
        let other_sorted = sorted_by_rank(other.cards.as_slice());
        let ghost x = rank_values(self_sorted@);
        let ghost y = rank_values(other_sorted@);
        proof {
            lemma_desc_ranks_of_sorted(self.cards@, self_sorted@);
            lemma_desc_ranks_of_sorted(other.cards@, other_sorted@);
            assert(x.skip(0) =~= x);
            assert(y.skip(0) =~= y);
        }
        let mut i: usize = 0;
        while i < self_sorted.len() && i < other_sorted.len()
            invariant
                i <= self_sorted@.len(),
                i <= other_sorted@.len(),
                x == rank_values(self_sorted@),
                y == rank_values(other_sorted@),
                lex_cmp(x, y) == lex_cmp(x.skip(i as int), y.skip(i as int)),
                desc_ranks(self.cards@) == x,
                desc_ranks(other.cards@) == y,
                self.rank.value() == other.rank.value(),
            decreases self_sorted@.len() - i,
        {
            let r1 = self_sorted[i].rank.index();
            let r2 = other_sorted[i].rank.index();
            proof {
                assert(x.skip(i as int)[0] == r1);
                assert(y.skip(i as int)[0] == r2);
            }
            if r1 > r2 {
                return Ordering::Greater;
            }
            if r1 < r2 {
                return Ordering::Less;
            }
            proof {
                assert(x.skip(i as int).drop_first() =~= x.skip(i + 1));
                assert(y.skip(i as int).drop_first() =~= y.skip(i + 1));
            }
            i = i + 1;
        }
        if i < self_sorted.len() {
            Ordering::Greater
        } else if i < other_sorted.len() {
            Ordering::Less
        } else {
            Ordering::Equal
        }
    }
}

// ---------------------------------------------------------------------
// The hand order is a strict weak order.
// ---------------------------------------------------------------------
/// The verdict seen from the other side.
pub open spec fn reversed(o: Ordering) -> Ordering {
    match o {
        Ordering::Less => Ordering::Greater,
        Ordering::Equal => Ordering::Equal,
        Ordering::Greater => Ordering::Less,
    }
}

proof fn lemma_lex_equal(a: Seq<int>, b: Seq<int>)
    ensures
        (lex_cmp(a, b) == Ordering::Equal) <==> a == b,
    decreases a.len(),
{
    if a.len() > 0 && b.len() > 0 && a[0] == b[0] {
        lemma_lex_equal(a.drop_first(), b.drop_first());
        if a.drop_first() == b.drop_first() {
            assert(a =~= b) by {
                assert forall|i: int| 0 <= i < a.len() implies a[i] == b[i] by {
                    if i > 0 {
                        assert(a[i] == a.drop_first()[i - 1]);
                        assert(b[i] == b.drop_first()[i - 1]);
                    }
                }
            }
        }
        if a == b {
            assert(a.drop_first() == b.drop_first());
        }
    } else if a.len() == 0 && b.len() == 0 {
        assert(a =~= b);
    }
}

proof fn lemma_lex_reversed(a: Seq<int>, b: Seq<int>)
    ensures
        lex_cmp(a, b) == reversed(lex_cmp(b, a)),
    decreases a.len(),
{
    if a.len() > 0 && b.len() > 0 && a[0] == b[0] {
        lemma_lex_reversed(a.drop_first(), b.drop_first());
    }
}

proof fn lemma_lex_transitive(a: Seq<int>, b: Seq<int>, c: Seq<int>)
    ensures
        lex_cmp(a, b) != Ordering::Less && lex_cmp(b, c) != Ordering::Less ==> lex_cmp(a, c)
            != Ordering::Less,
        lex_cmp(a, b) == Ordering::Greater && lex_cmp(b, c) != Ordering::Less ==> lex_cmp(a, c)
            == Ordering::Greater,
        lex_cmp(a, b) != Ordering::Less && lex_cmp(b, c) == Ordering::Greater ==> lex_cmp(a, c)
            == Ordering::Greater,
    decreases a.len(),
{
    if a.len() > 0 && b.len() > 0 && c.len() > 0 && a[0] == b[0] && b[0] == c[0] {
        lemma_lex_transitive(a.drop_first(), b.drop_first(), c.drop_first());
    }
}

proof fn lemma_hand_order_reflexive(r: HandRank, c: Seq<Card>)
    ensures
        hand_order(r, c, r, c) == Ordering::Equal,
{
    lemma_lex_equal(desc_ranks(c), desc_ranks(c));
}

proof fn lemma_hand_order_reversed(ra: HandRank, ca: Seq<Card>, rb: HandRank, cb: Seq<Card>)
    ensures
        hand_order(ra, ca, rb, cb) == reversed(hand_order(rb, cb, ra, ca)),
{
    lemma_lex_reversed(desc_ranks(ca), desc_ranks(cb));
}

proof fn lemma_hand_order_transitive(
    ra: HandRank,
    ca: Seq<Card>,
    rb: HandRank,
    cb: Seq<Card>,
    rc: HandRank,
    cc: Seq<Card>,
)
    ensures
        hand_order(ra, ca, rb, cb) != Ordering::Less && hand_order(rb, cb, rc, cc) != Ordering::Less
            ==> hand_order(ra, ca, rc, cc) != Ordering::Less,
        hand_order(ra, ca, rb, cb) == Ordering::Greater && hand_order(rb, cb, rc, cc)
            != Ordering::Less ==> hand_order(ra, ca, rc, cc) == Ordering::Greater,
        hand_order(ra, ca, rb, cb) != Ordering::Less && hand_order(rb, cb, rc, cc)
            == Ordering::Greater ==> hand_order(ra, ca, rc, cc) == Ordering::Greater,
{
    lemma_lex_transitive(desc_ranks(ca), desc_ranks(cb), desc_ranks(cc));
}

/// Every hand stands level with itself.
pub proof fn lemma_order_reflexive(a: Hand)
    ensures
        a.order(a) == Ordering::Equal,
{
    lemma_hand_order_reflexive(a.rank, a.cards@);
}

/// The order is antisymmetric: `a` beats `b` exactly when `b` loses to
/// `a`, and they are level in either order or in neither.
pub proof fn lemma_order_antisymmetric(a: Hand, b: Hand)
    ensures
        (a.order(b) == Ordering::Greater) <==> (b.order(a) == Ordering::Less),
        (a.order(b) == Ordering::Equal) <==> (b.order(a) == Ordering::Equal),
        a.order(b) == reversed(b.order(a)),
{
    lemma_hand_order_reversed(a.rank, a.cards@, b.rank, b.cards@);
}

/// The order is transitive along any chain of three hands: "not worse than"
/// carries over, and so does "better than" as soon as one link is strict;
/// being level carries over too.
pub proof fn lemma_order_transitive(a: Hand, b: Hand, c: Hand)
    ensures
        a.order(b) != Ordering::Less && b.order(c) != Ordering::Less ==> a.order(c)
            != Ordering::Less,
        a.order(b) == Ordering::Greater && b.order(c) != Ordering::Less ==> a.order(c)
            == Ordering::Greater,
        a.order(b) != Ordering::Less && b.order(c) == Ordering::Greater ==> a.order(c)
            == Ordering::Greater,
        a.order(b) == Ordering::Equal && b.order(c) == Ordering::Equal ==> a.order(c)
            == Ordering::Equal,
{
    lemma_hand_order_transitive(a.rank, a.cards@, b.rank, b.cards@, c.rank, c.cards@);
    lemma_hand_order_transitive(c.rank, c.cards@, b.rank, b.cards@, a.rank, a.cards@);
    lemma_hand_order_reversed(a.rank, a.cards@, b.rank, b.cards@);
    lemma_hand_order_reversed(b.rank, b.cards@, c.rank, c.cards@);
    lemma_hand_order_reversed(a.rank, a.cards@, c.rank, c.cards@);
}

/// Listing either set of cards in another order leaves their comparison
/// unchanged.
proof fn lemma_cards_order_same_cards(x: Seq<Card>, p: Seq<Card>, q: Seq<Card>)
    requires
        p.to_multiset() == q.to_multiset(),
    ensures
        cards_order(x, p) == cards_order(x, q),
        cards_order(p, x) == cards_order(q, x),
{
    lemma_same_cards_same_hand(p, q);
}

// ---------------------------------------------------------------------
// Best hand out of a larger set of cards.
// ---------------------------------------------------------------------
/// `c` picks `k` of `n` positions, in increasing order.
pub open spec fn is_choice(c: Seq<usize>, n: int, k: int) -> bool {
    &&& c.len() == k
    &&& forall|i: int| 0 <= i < c.len() ==> #[trigger] c[i] < n
    &&& forall|i: int, j: int| 0 <= i < j < c.len() ==> #[trigger] c[i] < #[trigger] c[j]
}

/// The cards at the chosen positions.
pub open spec fn pick(cards: Seq<Card>, c: Seq<usize>) -> Seq<Card> {
    c.map_values(|i: usize| cards[i as int])
}

/// `h` is a best five-card hand that `cards` hold: it is made of five of
/// them and no five of them make a better one.
pub open spec fn is_best_hand_of(h: Hand, cards: Seq<Card>) -> bool {
    &&& h.wf()
    &&& exists|c: Seq<usize>|
        #[trigger] is_choice(c, cards.len() as int, 5) && pick(cards, c).to_multiset()
            == h.cards@.to_multiset()
    &&& forall|c: Seq<usize>| #[trigger]
        is_choice(c, cards.len() as int, 5) ==> cards_order(h.cards@, pick(cards, c))
            != Ordering::Less
}

/// Relies on itertools' `Itertools::combinations` over the range `0..n`: it
/// yields every `k`-length combination of the range once, each listing its
/// positions in increasing order. All combinations are collected at once,
/// so `n` is held to the size of a deck.
#[verifier::external_body]
fn index_combinations(n: usize, k: usize) -> (r: Vec<Vec<usize>>)
    requires
        n <= 52,
    ensures
        forall|j: int| 0 <= j < r@.len() ==> is_choice(#[trigger] r@[j]@, n as int, k as int),
        forall|c: Seq<usize>| #[trigger]
            is_choice(c, n as int, k as int) ==> exists|j: int| 0 <= j < r@.len() && r@[j]@ == c,
{
    (0..n).combinations(k).collect()
}

proof fn lemma_classify_no_cards()
    ensures
        classify(Seq::<Card>::empty()) == HandRank::HighCard,
{
    broadcast use vstd::seq_lib::group_to_multiset_ensures;

    let e = Seq::<Card>::empty();
    assert(rank_values(e) =~= Seq::<int>::empty());
    assert(suit_values(e) =~= Seq::<int>::empty());
    let ranks = rank_counts(e);
    assert forall|r: int| 0 <= r < 13 implies ranks[r] == 0 by {
        lemma_tally_bound(rank_values(e), r);
    }
    assert forall|s: int| 0 <= s < 4 implies suit_counts(e)[s] == 0 by {
        lemma_tally_bound(suit_values(e), s);
    }
    assert(!ranks.contains(2));
    assert(!ranks.contains(3));
    assert(!ranks.contains(4));
    assert(!straight_in(ranks)) by {
        if straight_in(ranks) {
            let lo = choose|lo: int| 0 <= lo && lo + 5 <= ranks.len() && #[trigger] run_at(ranks, lo);
            assert(ranks[lo] > 0);
        }
    }
}

/// Builds the hand made of the cards at the chosen positions.
fn hand_of_choice(cards: &[Card], choice: &Vec<usize>) -> (h: Hand)
    requires
        forall|i: int| 0 <= i < choice@.len() ==> #[trigger] choice@[i] < cards@.len(),
    ensures
        h.cards@.to_multiset() == pick(cards@, choice@).to_multiset(),
        h.cards@.len() == choice@.len(),
        rank_descending(h.cards@),
        h.rank == classify(h.cards@),
{
    let mut picked: Vec<Card> = Vec::new();
    let mut t: usize = 0;
    while t < choice.len()
        invariant
            t <= choice@.len(),
            forall|i: int| 0 <= i < choice@.len() ==> #[trigger] choice@[i] < cards@.len(),
            picked@ == pick(cards@, choice@.take(t as int)),
        decreases choice@.len() - t,
    {
        picked.push(cards[choice[t]]);
        proof {
            assert(pick(cards@, choice@.take(t + 1)) =~= pick(cards@, choice@.take(t as int)).push(
                cards@[choice@[t as int] as int],
            ));
        }
        t = t + 1;
    }
    proof {
        assert(choice@.take(choice@.len() as int) =~= choice@);
    }
    Hand::new(picked)
}

/// Finds the best five-card hand among all five-card combinations of the
/// given cards. With fewer than five cards there is no such combination, and
/// the result is the empty HighCard hand.
pub fn find_best_hand(cards: &[Card]) -> (best: Hand)
    requires
        cards@.len() <= 52,
    ensures
        cards@.len() < 5 ==> best.cards@.len() == 0 && best.rank == HandRank::HighCard,
        cards@.len() >= 5 ==> is_best_hand_of(best, cards@),
        cards@.len() >= 5 ==> forall|c: Seq<usize>| #[trigger]
            is_choice(c, cards@.len() as int, 5) ==> best.rank.value() >= classify(
                pick(cards@, c),
            ).value(),
{
    let combos = index_combinations(cards.len(), 5);
    if combos.len() == 0 {
        proof {
            if cards@.len() >= 5 {
                let first = seq![0usize, 1, 2, 3, 4];
                assert(is_choice(first, cards@.len() as int, 5));
            }
            lemma_classify_no_cards();
        }
        let empty: Vec<Card> = Vec::new();
        let h = Hand::new(empty);
        proof {
            assert(empty@ =~= Seq::<Card>::empty());
        }
        return h;
    }
    let n = cards.len();
    let mut best = hand_of_choice(cards, &combos[0]);
    let ghost mut best_choice: Seq<usize> = combos@[0]@;
    proof {
        let c0 = combos@[0]@;
        assert(is_choice(c0, n as int, 5));
        assert(c0[0] < c0[1] && c0[1] < c0[2] && c0[2] < c0[3] && c0[3] < c0[4] && c0[4] < n);
        lemma_cards_order_same_cards(best.cards@, best.cards@, pick(cards@, combos@[0]@));
        lemma_hand_order_reflexive(best.rank, best.cards@);
    }
    let mut j: usize = 1;
    while j < combos.len()
        invariant
            1 <= j <= combos@.len(),
            n == cards@.len(),
            n <= 52,
            forall|i: int| 0 <= i < combos@.len() ==> is_choice(#[trigger] combos@[i]@, n as int, 5),
            best.wf(),
            is_choice(best_choice, n as int, 5),
            pick(cards@, best_choice).to_multiset() == best.cards@.to_multiset(),
            forall|t: int|
                0 <= t < j ==> cards_order(best.cards@, pick(cards@, #[trigger] combos@[t]@))
                    != Ordering::Less,
        decreases combos@.len() - j,
    {
        proof {
            assert(is_choice(combos@[j as int]@, n as int, 5));
        }
        let h = hand_of_choice(cards, &combos[j]);
        let ghost p = pick(cards@, combos@[j as int]@);
        proof {
            lemma_cards_order_same_cards(h.cards@, h.cards@, p);
            lemma_cards_order_same_cards(best.cards@, h.cards@, p);
            lemma_hand_order_reflexive(h.rank, h.cards@);
            lemma_hand_order_reversed(h.rank, h.cards@, best.rank, best.cards@);
        }
        let verdict = h.compare_two_hands(&best);
        if matches!(verdict, Ordering::Greater) {
            proof {
                assert forall|t: int| 0 <= t < j + 1 implies cards_order(
                    h.cards@,
                    pick(cards@, #[trigger] combos@[t]@),
                ) != Ordering::Less by {
                    if t < j {
                        let q = pick(cards@, combos@[t]@);
                        lemma_hand_order_transitive(
                            h.rank,
                            h.cards@,
                            best.rank,
                            best.cards@,
                            classify(q),
                            q,
                        );
                    }
                }
            }
            best = h;
            proof {
                best_choice = combos@[j as int]@;
            }
        }
        j = j + 1;
    }
    proof {
        assert forall|c: Seq<usize>| #[trigger]
            is_choice(c, n as int, 5) implies cards_order(best.cards@, pick(cards@, c))
            != Ordering::Less && best.rank.value() >= classify(pick(cards@, c)).value() by {
            let t = choose|t: int| 0 <= t < combos@.len() && combos@[t]@ == c;
            assert(cards_order(best.cards@, pick(cards@, combos@[t]@)) != Ordering::Less);
        }
    }
    best
}

} // verus!
