use crate::card_dealer::{full_deck, Card, Deck};
use crate::player::Player;
use crate::poker_hand::{
    is_best_hand_of,
    lemma_order_antisymmetric,
    lemma_order_reflexive,
    lemma_order_transitive,
    Hand,
};
use crate::table::{contains_id, ids, Table};
use std::cmp::Ordering;
use vstd::prelude::*;

verus! {

broadcast use vstd::string::to_string_from_display_ensures_for_str;

// ---------------------------------------------------------------------
// Who wins among a pool of players.
// ---------------------------------------------------------------------
/// The player at `i` is in the pool and holds an evaluated hand.
pub open spec fn contends(players: Seq<Player>, pool: Seq<Seq<char>>, i: int) -> bool {
    &&& 0 <= i < players.len()
    &&& pool.contains(players[i].player_id@)
    &&& players[i].best_hand is Some
}

/// The evaluated hand of the player at `i`.
pub open spec fn hand_at(players: Seq<Player>, i: int) -> Hand {
    players[i].best_hand->Some_0
}

/// The player at `i` contends, and no contender among the first `n` players
/// holds a better hand.
pub open spec fn top_within(players: Seq<Player>, pool: Seq<Seq<char>>, i: int, n: int) -> bool {
    &&& contends(players, pool, i)
    &&& forall|j: int|
        0 <= j < n && contends(players, pool, j) ==> #[trigger] hand_at(players, i).order(
            hand_at(players, j),
        ) != Ordering::Less
}

/// Some player among the first `n` contends.
pub open spec fn has_contender(players: Seq<Player>, pool: Seq<Seq<char>>, n: int) -> bool {
    exists|j: int| 0 <= j < n && #[trigger] contends(players, pool, j)
}

/// The identifiers of the players among the first `m` that are
/// `top_within(.., n)`, in seating order.
pub open spec fn winner_ids(players: Seq<Player>, pool: Seq<Seq<char>>, n: int, m: int) -> Seq<
    Seq<char>,
>
    decreases m,
{
    if m <= 0 {
        Seq::empty()
    } else if top_within(players, pool, m - 1, n) {
        winner_ids(players, pool, n, m - 1).push(players[m - 1].player_id@)
    } else {
        winner_ids(players, pool, n, m - 1)
    }
}

/// The outcome among a pool: no winner when nobody in it holds an evaluated
/// hand; otherwise every such player whose hand none of the others beats.
pub open spec fn resolution(players: Seq<Player>, pool: Seq<Seq<char>>) -> Option<Seq<Seq<char>>> {
    if has_contender(players, pool, players.len() as int) {
        Some(winner_ids(players, pool, players.len() as int, players.len() as int))
    } else {
        None
    }
}

/// An optional list of identifiers, as character sequences.
pub open spec fn ids_of(r: Option<Vec<String>>) -> Option<Seq<Seq<char>>> {
    match r {
        Some(w) => Some(ids(w@)),
        None => None,
    }
}

proof fn lemma_winner_ids_same(
    players: Seq<Player>,
    pool: Seq<Seq<char>>,
    n1: int,
    n2: int,
    m: int,
)
    requires
        forall|k: int| 0 <= k < m ==> #[trigger] top_within(players, pool, k, n1) == top_within(players, pool, k, n2),
    ensures
        winner_ids(players, pool, n1, m) == winner_ids(players, pool, n2, m),
    decreases m,
{
    if m > 0 {
        lemma_winner_ids_same(players, pool, n1, n2, m - 1);
    }
}

proof fn lemma_winner_ids_none(players: Seq<Player>, pool: Seq<Seq<char>>, n: int, m: int)
    requires
        forall|k: int| 0 <= k < m ==> !#[trigger] top_within(players, pool, k, n),
    ensures
        winner_ids(players, pool, n, m) == Seq::<Seq<char>>::empty(),
    decreases m,
{
    if m > 0 {
        lemma_winner_ids_none(players, pool, n, m - 1);
    }
}

/// With nobody in the pool holding an evaluated hand (an empty pool in
/// particular) there is no winner, as opposed to an empty list of winners.
pub proof fn lemma_no_contender_no_winner(players: Seq<Player>, pool: Seq<Seq<char>>)
    requires
        forall|i: int|
            0 <= i < players.len() && pool.contains(#[trigger] players[i].player_id@)
                ==> players[i].best_hand is None,
    ensures
        resolution(players, pool) is None,
{
    assert(!has_contender(players, pool, players.len() as int));
}

proof fn lemma_winner_ids_include(players: Seq<Player>, pool: Seq<Seq<char>>, n: int, m: int, j: int)
    requires
        0 <= j < m,
        top_within(players, pool, j, n),
    ensures
        winner_ids(players, pool, n, m).contains(players[j].player_id@),
    decreases m,
{
    if j < m - 1 {
        lemma_winner_ids_include(players, pool, n, m - 1, j);
        let w = winner_ids(players, pool, n, m - 1);
        let k = choose|k: int| 0 <= k < w.len() && w[k] == players[j].player_id@;
        if top_within(players, pool, m - 1, n) {
            assert(w.push(players[m - 1].player_id@)[k] == players[j].player_id@);
        }
    } else {
        let w = winner_ids(players, pool, n, m - 1);
        assert(w.push(players[j].player_id@)[w.len() as int] == players[j].player_id@);
    }
}

/// Players whose hands stand level win together: when one of two
/// contenders holding equal hands (the board's best five cards, say) is
/// among the winners of a pool, so is the other.
pub proof fn lemma_tied_hands_share_the_win(
    players: Seq<Player>,
    pool: Seq<Seq<char>>,
    i: int,
    j: int,
)
    requires
        contends(players, pool, i),
        contends(players, pool, j),
        hand_at(players, i).order(hand_at(players, j)) == Ordering::Equal,
        top_within(players, pool, i, players.len() as int),
    ensures
        top_within(players, pool, j, players.len() as int),
        resolution(players, pool) matches Some(w) && w.contains(players[i].player_id@) && w.contains(
            players[j].player_id@,
        ),
{
    let n = players.len() as int;
    assert forall|k: int| 0 <= k < n && contends(players, pool, k) implies #[trigger] hand_at(
        players,
        j,
    ).order(hand_at(players, k)) != Ordering::Less by {
        lemma_order_antisymmetric(hand_at(players, i), hand_at(players, j));
        lemma_order_transitive(hand_at(players, j), hand_at(players, i), hand_at(players, k));
    }
    assert(has_contender(players, pool, n));
    lemma_winner_ids_include(players, pool, n, n, i);
    lemma_winner_ids_include(players, pool, n, n, j);
}

/// `now` is `before` with every player's hand recomputed from their hole
/// cards and the community cards.
pub open spec fn hands_evaluated(before: Seq<Player>, now: Seq<Player>, community: Seq<Card>) -> bool {
    &&& now.len() == before.len()
    &&& forall|i: int|
        0 <= i < now.len() ==> {
            &&& #[trigger] now[i].same_but_hand(before[i])
            &&& now[i].strength_in_step()
            &&& before[i].hole_cards@.len() + community.len() >= 5 ==> (now[i].best_hand matches Some(
                h,
            ) && is_best_hand_of(h, before[i].hole_cards@ + community))
            &&& before[i].hole_cards@.len() + community.len() < 5 ==> now[i].best_hand is None
        }
}

/// `now` is `before` with each pot's winners set to the outcome among its
/// eligible players; nothing else changes.
pub open spec fn pots_resolved(before: Table, now: Table, players: Seq<Player>) -> bool {
    &&& now.pots@.len() == before.pots@.len()
    &&& forall|k: int|
        0 <= k < now.pots@.len() ==> {
            &&& #[trigger] now.pots@[k].total == before.pots@[k].total
            &&& now.pots@[k].eligible_players == before.pots@[k].eligible_players
            &&& now.pots@[k].level == before.pots@[k].level
            &&& ids_of(now.pots@[k].winners) == resolution(
                players,
                ids(before.pots@[k].eligible_players@),
            )
        }
    &&& now.community_cards == before.community_cards
    &&& now.player_bets == before.player_bets
    &&& now.min_bet == before.min_bet
    &&& now.max_bet == before.max_bet
}

/// The fields other than the hole cards agree.
pub open spec fn same_but_hole(a: Player, b: Player) -> bool {
    &&& a.player_id == b.player_id
    &&& a.display_name == b.display_name
    &&& a.hand_strength == b.hand_strength
    &&& a.best_hand == b.best_hand
    &&& a.chip_stack == b.chip_stack
    &&& a.table_position == b.table_position
    &&& a.is_sitting_out == b.is_sitting_out
    &&& a.is_in_play == b.is_in_play
    &&& a.action_history == b.action_history
}

/// `now` is `before` prepared for a new hand.
pub open spec fn player_reset(before: Player, now: Player) -> bool {
    &&& now.hole_cards@.len() == 0
    &&& now.is_in_play == !before.is_sitting_out
    &&& now.hand_strength is None
    &&& now.best_hand is None
    &&& now.action_history@.len() == 0
    &&& now.player_id == before.player_id
    &&& now.display_name == before.display_name
    &&& now.chip_stack == before.chip_stack
    &&& now.table_position == before.table_position
    &&& now.is_sitting_out == before.is_sitting_out
}

/// A newly seated player made from (identifier, display name, table
/// position, chip stack).
pub open spec fn seated_from(p: Player, data: (String, String, usize, u32)) -> bool {
    &&& p.player_id == data.0
    &&& p.display_name == data.1
    &&& p.table_position == data.2
    &&& p.chip_stack == data.3
    &&& p.hole_cards@.len() == 0
    &&& p.hand_strength is None
    &&& p.best_hand is None
    &&& !p.is_sitting_out
    &&& p.is_in_play
    &&& p.action_history@.len() == 0
}

pub struct GameController {
    deck: Deck,
    community_cards: Vec<Card>,
    players: Vec<Player>,
    table: Table,
}

impl GameController {
    /// The cards still in the deck.
    pub closed spec fn deck_cards(self) -> Seq<Card> {
        self.deck@
    }

    /// The shared cards on the table.
    pub closed spec fn community(self) -> Seq<Card> {
        self.community_cards@
    }

    /// The players, in seating order.
    pub closed spec fn seated(self) -> Seq<Player> {
        self.players@
    }

    /// The table with its pots.
    pub closed spec fn table_state(self) -> Table {
        self.table
    }

    /// At most five community cards and at most two hole cards each.
    pub open spec fn wf(self) -> bool {
        &&& self.community().len() <= 5
        &&& forall|i: int| 0 <= i < self.seated().len() ==> #[trigger] self.seated()[i].hole_cards@.len() <= 2
    }

    pub fn new() -> (g: Self)
        ensures
            g.wf(),
            g.deck_cards().len() == 52,
            g.deck_cards().to_multiset() == full_deck().to_multiset(),
            g.community().len() == 0,
            g.seated().len() == 0,
            g.table_state().wf(),
            g.table_state().pots@.len() == 0,
    {
        Self { deck: Deck::new(), community_cards: Vec::new(), players: Vec::new(), table: Table::new() }
    }

    pub fn get_players(&self) -> (r: &Vec<Player>)
        ensures
            r@ == self.seated(),
    {
        &self.players
    }

    pub fn get_community_cards(&self) -> (r: &Vec<Card>)
        ensures
            r@ == self.community(),
    {
        &self.community_cards
    }

    pub fn get_table_mut(&mut self) -> (r: &mut Table)
        ensures
            *r == old(self).table_state(),
            final(self).table_state() == *final(r),
            final(self).seated() == old(self).seated(),
            final(self).community() == old(self).community(),
            final(self).deck_cards() == old(self).deck_cards(),
    {
        &mut self.table
    }

    /// Finds the winner(s) among the given pool of player identifiers: the
    /// players of the pool holding an evaluated hand that none of the others
    /// beats, in seating order; `None` when nobody in the pool holds an
    /// evaluated hand.
    pub fn get_winners(&self, player_pool: &[String]) -> (r: Option<Vec<String>>)
        ensures
            ids_of(r) == resolution(self.seated(), ids(player_pool@)),
    {
        winners_among(&self.players, player_pool)
    }
}

/// The players of the pool holding an evaluated hand that none of the
/// others in the pool beats, in seating order; `None` when nobody in the
/// pool holds an evaluated hand.
pub fn winners_among(players_vec: &Vec<Player>, player_pool: &[String]) -> (r: Option<Vec<String>>)
    ensures
        ids_of(r) == resolution(players_vec@, ids(player_pool@)),
{
    let ghost players = players_vec@;
    let ghost pool = ids(player_pool@);
    let ghost n = players.len() as int;
    let mut winners: Vec<String> = Vec::new();
    let mut best: Option<&Hand> = None;
    let ghost mut best_idx: int = 0;
    let mut i: usize = 0;
    while i < players_vec.len()
        invariant
            players == players_vec@,
            pool == ids(player_pool@),
            n == players.len(),
            i <= n,
            best is None <==> !has_contender(players, pool, i as int),
            best matches Some(h) ==> {
                &&& 0 <= best_idx < i
                &&& top_within(players, pool, best_idx, i as int)
                &&& *h == hand_at(players, best_idx)
            },
            ids(winners@) == winner_ids(players, pool, i as int, i as int),
        decreases n - i,
    {
        let player = &players_vec[i];
        let ghost ii = i as int;
        let listed = contains_id(player_pool, &player.player_id);
        match &player.best_hand {
            Some(hand) if listed => {
                proof {
                    assert(contends(players, pool, ii));
                    assert(hand_at(players, ii) == *hand);
                    lemma_order_reflexive(*hand);
                }
                match best {
                    None => {
                        proof {
                            assert forall|k: int| 0 <= k < ii implies !#[trigger] top_within(
                                players,
                                pool,
                                k,
                                ii + 1,
                            ) by {
                                assert(!contends(players, pool, k));
                            }
                            lemma_winner_ids_none(players, pool, ii + 1, ii);
                            assert(top_within(players, pool, ii, ii + 1)) by {
                                assert forall|j: int|
                                    0 <= j < ii + 1 && contends(
                                        players,
                                        pool,
                                        j,
                                    ) implies #[trigger] hand_at(players, ii).order(
                                    hand_at(players, j),
                                ) != Ordering::Less by {
                                    assert(!(j < ii) || !contends(players, pool, j));
                                }
                            }
                        }
                        winners = Vec::new();
                        winners.push(player.player_id.clone());
                        best = Some(hand);
                        proof {
                            best_idx = ii;
                            assert(ids(winners@) =~= seq![players[ii].player_id@]);
                        }
                    },
                    Some(b) => {
                        let verdict = hand.compare_two_hands(b);
                        let ghost bh = *b;
                        proof {
                            lemma_order_antisymmetric(*hand, bh);
                        }
                        match verdict {
                            Ordering::Greater => {
                                proof {
                                    assert forall|k: int| 0 <= k < ii implies !#[trigger] top_within(
                                        players,
                                        pool,
                                        k,
                                        ii + 1,
                                    ) by {
                                        if contends(players, pool, k) {
                                            let kh = hand_at(players, k);
                                            assert(bh.order(kh) != Ordering::Less);
                                            lemma_order_transitive(*hand, bh, kh);
                                            lemma_order_antisymmetric(kh, *hand);
                                            assert(kh.order(hand_at(players, ii))
                                                == Ordering::Less);
                                        }
                                    }
                                    lemma_winner_ids_none(players, pool, ii + 1, ii);
                                    assert forall|j: int|
                                        0 <= j < ii + 1 && contends(
                                            players,
                                            pool,
                                            j,
                                        ) implies #[trigger] hand_at(players, ii).order(
                                        hand_at(players, j),
                                    ) != Ordering::Less by {
                                        if j < ii {
                                            lemma_order_transitive(
                                                *hand,
                                                bh,
                                                hand_at(players, j),
                                            );
                                        }
                                    }
                                }
                                winners = Vec::new();
                                winners.push(player.player_id.clone());
                                best = Some(hand);
                                proof {
                                    best_idx = ii;
                                    assert(ids(winners@) =~= seq![players[ii].player_id@]);
                                }
                            },
                            Ordering::Equal => {
                                proof {
                                    assert forall|k: int| 0 <= k < ii implies #[trigger] top_within(
                                        players,
                                        pool,
                                        k,
                                        ii + 1,
                                    ) == top_within(players, pool, k, ii) by {
                                        if top_within(players, pool, k, ii) {
                                            let kh = hand_at(players, k);
                                            assert(kh.order(bh) != Ordering::Less);
                                            lemma_order_transitive(kh, bh, *hand);
                                        }
                                    }
                                    lemma_winner_ids_same(players, pool, ii + 1, ii, ii);
                                    assert forall|j: int|
                                        0 <= j < ii + 1 && contends(
                                            players,
                                            pool,
                                            j,
                                        ) implies #[trigger] hand_at(players, ii).order(
                                        hand_at(players, j),
                                    ) != Ordering::Less by {
                                        if j < ii {
                                            lemma_order_transitive(
                                                *hand,
                                                bh,
                                                hand_at(players, j),
                                            );
                                        }
                                    }
                                }
                                let copy = player.player_id.clone();
                                let ghost before = winners@;
                                winners.push(copy);
                                proof {
                                    assert(ids(winners@) =~= ids(before).push(copy@));
                                    assert forall|j: int|
                                        0 <= j < ii + 1 && contends(
                                            players,
                                            pool,
                                            j,
                                        ) implies #[trigger] hand_at(players, best_idx).order(
                                        hand_at(players, j),
                                    ) != Ordering::Less by {
                                        if j == ii {
                                            assert(bh.order(*hand) == Ordering::Equal);
                                        }
                                    }
                                }
                            },
                            Ordering::Less => {
                                proof {
                                    assert forall|k: int| 0 <= k < ii implies #[trigger] top_within(
                                        players,
                                        pool,
                                        k,
                                        ii + 1,
                                    ) == top_within(players, pool, k, ii) by {
                                        if top_within(players, pool, k, ii) {
                                            let kh = hand_at(players, k);
                                            assert(kh.order(bh) != Ordering::Less);
                                            lemma_order_transitive(kh, bh, *hand);
                                        }
                                    }
                                    lemma_winner_ids_same(players, pool, ii + 1, ii, ii);
                                    assert(!top_within(players, pool, ii, ii + 1)) by {
                                        assert(hand_at(players, ii).order(
                                            hand_at(players, best_idx),
                                        ) == Ordering::Less);
                                    }
                                    assert forall|j: int|
                                        0 <= j < ii + 1 && contends(
                                            players,
                                            pool,
                                            j,
                                        ) implies #[trigger] hand_at(players, best_idx).order(
                                        hand_at(players, j),
                                    ) != Ordering::Less by {}
                                }
                            },
                        }
                    },
                }
            },
            _ => {
                proof {
                    assert(!contends(players, pool, ii));
                    assert forall|k: int| 0 <= k < ii implies #[trigger] top_within(
                        players,
                        pool,
                        k,
                        ii + 1,
                    ) == top_within(players, pool, k, ii) by {}
                    lemma_winner_ids_same(players, pool, ii + 1, ii, ii);
                    if best is Some {
                        assert(top_within(players, pool, best_idx, ii + 1));
                    }
                }
            },
        }
        i = i + 1;
    }
    match best {
        None => None,
        Some(_) => Some(winners),
    }
}

impl GameController {
    /// Seats the given players, replacing any seated before; each is given
    /// as (identifier, display name, table position, chip stack).
    pub fn initialize_players(&mut self, player_data: Vec<(String, String, usize, u32)>)
        ensures
            old(self).wf() ==> final(self).wf(),
            final(self).seated().len() == player_data@.len(),
            forall|i: int|
                0 <= i < player_data@.len() ==> seated_from(
                    #[trigger] final(self).seated()[i],
                    player_data@[i],
                ),
            final(self).deck_cards() == old(self).deck_cards(),
            final(self).community() == old(self).community(),
            final(self).table_state() == old(self).table_state(),
    {
        let mut players: Vec<Player> = Vec::new();
        let mut i: usize = 0;
        while i < player_data.len()
            invariant
                i <= player_data@.len(),
                players@.len() == i,
                forall|j: int| 0 <= j < i ==> seated_from(#[trigger] players@[j], player_data@[j]),
            decreases player_data@.len() - i,
        {
            let entry = &player_data[i];
            let p = Player::new(entry.0.clone(), entry.1.clone(), entry.2, entry.3);
            players.push(p);
            i = i + 1;
        }
        self.players = players;
    }

    /// Deals two hole cards to each player, in seating order. Fails,
    /// changing nothing, when the deck holds too few cards for all.
    pub fn deal_hole_cards(&mut self) -> (r: Result<(), String>)
        requires
            old(self).wf(),
        ensures
            final(self).wf(),
            old(self).deck_cards().len() < 2 * old(self).seated().len() ==> r is Err && *final(self)
                == *old(self),
            old(self).deck_cards().len() >= 2 * old(self).seated().len() ==> r is Ok,
            r matches Err(e) ==> e@ == "Not enough cards to deal hole cards."@,
            r is Ok ==> final(self).deck_cards() == old(self).deck_cards().skip(
                2 * old(self).seated().len() as int,
            ),
            r is Ok ==> final(self).seated().len() == old(self).seated().len(),
            r is Ok ==> forall|i: int|
                0 <= i < old(self).seated().len() ==> {
                    &&& #[trigger] final(self).seated()[i].hole_cards@ == old(
                        self,
                    ).deck_cards().subrange(2 * i, 2 * i + 2)
                    &&& same_but_hole(final(self).seated()[i], old(self).seated()[i])
                },
            final(self).community() == old(self).community(),
            final(self).table_state() == old(self).table_state(),
    {
        if self.deck.remaining() / 2 < self.players.len() {
            return Err("Not enough cards to deal hole cards.".to_string());
        }
        let ghost deck0 = self.deck@;
        let ghost players0 = self.players@;
        let mut i: usize = 0;
        while i < self.players.len()
            invariant
                deck0 == old(self).deck@,
                players0 == old(self).players@,
                self.players@.len() == players0.len(),
                2 * players0.len() <= deck0.len(),
                i <= players0.len(),
                self.deck@ == deck0.skip(2 * i as int),
                self.community_cards == old(self).community_cards,
                self.table == old(self).table,
                forall|j: int|
                    0 <= j < i ==> {
                        &&& #[trigger] self.players@[j].hole_cards@ == deck0.subrange(2 * j, 2 * j + 2)
                        &&& same_but_hole(self.players@[j], players0[j])
                    },
                forall|j: int| i <= j < players0.len() ==> #[trigger] self.players@[j] == players0[j],
            decreases players0.len() - i,
        {
            match self.deck.deal(2) {
                Some(cards) => {
                    proof {
                        assert(cards@ =~= deck0.subrange(2 * i, 2 * i + 2));
                        assert(deck0.skip(2 * i).skip(2) =~= deck0.skip(2 * i + 2));
                    }
                    self.players[i].hole_cards = cards;
                },
                None => {
                    return Err("Not enough cards to deal hole cards.".to_string());
                },
            }
            i = i + 1;
        }
        Ok(())
    }

    /// Sets each pot's winners to the outcome among its eligible players.
    pub fn resolve_pots(&mut self)
        ensures
            pots_resolved(old(self).table_state(), final(self).table_state(), old(self).seated()),
            final(self).seated() == old(self).seated(),
            final(self).deck_cards() == old(self).deck_cards(),
            final(self).community() == old(self).community(),
    {
        let mut k: usize = 0;
        while k < self.table.pots.len()
            invariant
                self.players == old(self).players,
                self.deck == old(self).deck,
                self.community_cards == old(self).community_cards,
                self.table.pots@.len() == old(self).table.pots@.len(),
                self.table.community_cards == old(self).table.community_cards,
                self.table.player_bets == old(self).table.player_bets,
                self.table.min_bet == old(self).table.min_bet,
                self.table.max_bet == old(self).table.max_bet,
                k <= self.table.pots@.len(),
                forall|j: int|
                    0 <= j < k ==> {
                        &&& #[trigger] self.table.pots@[j].total == old(self).table.pots@[j].total
                        &&& self.table.pots@[j].eligible_players == old(
                            self,
                        ).table.pots@[j].eligible_players
                        &&& self.table.pots@[j].level == old(self).table.pots@[j].level
                        &&& ids_of(self.table.pots@[j].winners) == resolution(
                            old(self).players@,
                            ids(old(self).table.pots@[j].eligible_players@),
                        )
                    },
                forall|j: int|
                    k <= j < self.table.pots@.len() ==> #[trigger] self.table.pots@[j] == old(
                        self,
                    ).table.pots@[j],
            decreases self.table.pots@.len() - k,
        {
            let w = self.get_winners(self.table.pots[k].eligible_players.as_slice());
            self.table.pots[k].winners = w;
            k = k + 1;
        }
    }

    /// Recomputes every player's best hand from their hole cards and the
    /// community cards, then resolves the pots.
    pub fn evaluate_player_hands(&mut self)
        requires
            old(self).wf(),
        ensures
            final(self).wf(),
            hands_evaluated(old(self).seated(), final(self).seated(), old(self).community()),
            pots_resolved(old(self).table_state(), final(self).table_state(), final(self).seated()),
            final(self).deck_cards() == old(self).deck_cards(),
            final(self).community() == old(self).community(),
    {
        let ghost players0 = self.players@;
        let mut i: usize = 0;
        while i < self.players.len()
            invariant
                players0 == old(self).players@,
                self.players@.len() == players0.len(),
                i <= players0.len(),
                self.community_cards == old(self).community_cards,
                self.community_cards@.len() <= 5,
                self.deck == old(self).deck,
                self.table == old(self).table,
                forall|j: int| 0 <= j < players0.len() ==> #[trigger] players0[j].hole_cards@.len() <= 2,
                forall|j: int|
                    0 <= j < i ==> {
                        &&& #[trigger] self.players@[j].same_but_hand(players0[j])
                        &&& self.players@[j].strength_in_step()
                        &&& players0[j].hole_cards@.len() + self.community_cards@.len() >= 5 ==> (
                        self.players@[j].best_hand matches Some(h) && is_best_hand_of(
                            h,
                            players0[j].hole_cards@ + self.community_cards@,
                        ))
                        &&& players0[j].hole_cards@.len() + self.community_cards@.len() < 5
                            ==> self.players@[j].best_hand is None
                    },
                forall|j: int| i <= j < players0.len() ==> #[trigger] self.players@[j] == players0[j],
            decreases players0.len() - i,
        {
            let ghost before = self.players@;
            self.players[i].evaluate_hand(self.community_cards.as_slice());
            proof {
                assert(self.players@[i as int].same_but_hand(players0[i as int]));
                assert forall|j: int| 0 <= j < players0.len() && j != i implies self.players@[j]
                    == before[j] by {}
                let community = self.community_cards@;
                assert forall|j: int| 0 <= j < i + 1 implies {
                    &&& #[trigger] self.players@[j].same_but_hand(players0[j])
                    &&& self.players@[j].strength_in_step()
                    &&& players0[j].hole_cards@.len() + community.len() >= 5 ==> (
                    self.players@[j].best_hand matches Some(h) && is_best_hand_of(
                        h,
                        players0[j].hole_cards@ + community,
                    ))
                    &&& players0[j].hole_cards@.len() + community.len() < 5
                        ==> self.players@[j].best_hand is None
                } by {
                    if j < i {
                        assert(self.players@[j] == before[j]);
                        assert(before[j].same_but_hand(players0[j]));
                    } else {
                        assert(before[j] == players0[j]);
                    }
                }
            }
            i = i + 1;
        }
        proof {
            assert forall|j: int| 0 <= j < self.players@.len() implies #[trigger] self.players@[j].hole_cards@.len() <= 2 by {
                assert(self.players@[j].same_but_hand(players0[j]));
            }
        }
        self.resolve_pots();
    }

    /// Deals the five community cards and evaluates every player's hand.
    /// Fails, changing nothing, when the deck holds fewer than five cards.
    pub fn deal_community_cards(&mut self) -> (r: Result<(), String>)
        requires
            old(self).wf(),
        ensures
            final(self).wf(),
            old(self).deck_cards().len() < 5 ==> r is Err,
            r is Err ==> final(self).deck_cards() == old(self).deck_cards(),
            r is Err ==> final(self).seated() == old(self).seated(),
            r is Err ==> final(self).community() == old(self).community(),
            r is Err ==> final(self).table_state() == old(self).table_state(),
            old(self).deck_cards().len() >= 5 ==> r is Ok,
            r matches Err(e) ==> e@ == "Not enough cards to deal community cards."@,
            r is Ok ==> final(self).community() == old(self).deck_cards().take(5),
            r is Ok ==> final(self).deck_cards() == old(self).deck_cards().skip(5),
            r is Ok ==> hands_evaluated(old(self).seated(), final(self).seated(), final(self).community()),
            r is Ok ==> pots_resolved(old(self).table_state(), final(self).table_state(), final(self).seated()),
    {
        match self.deck.deal(5) {
            Some(cards) => {
                self.community_cards = cards;
                self.evaluate_player_hands();
                Ok(())
            },
            None => Err("Not enough cards to deal community cards.".to_string()),
        }
    }

    /// Returns the deck to a full shuffled state, clears the community cards
    /// and prepares every player for a new hand.
    pub fn reset_deck(&mut self)
        ensures
            final(self).wf(),
            final(self).deck_cards().len() == 52,
            final(self).deck_cards().to_multiset() == full_deck().to_multiset(),
            final(self).community().len() == 0,
            final(self).seated().len() == old(self).seated().len(),
            forall|i: int|
                0 <= i < old(self).seated().len() ==> player_reset(
                    old(self).seated()[i],
                    #[trigger] final(self).seated()[i],
                ),
            final(self).table_state() == old(self).table_state(),
    {
        self.deck.reset();
        self.community_cards.clear();
        let ghost players0 = self.players@;
        let mut i: usize = 0;
        while i < self.players.len()
            invariant
                players0 == old(self).players@,
                self.players@.len() == players0.len(),
                i <= players0.len(),
                self.deck@.len() == 52,
                self.deck@.to_multiset() == full_deck().to_multiset(),
                self.community_cards@.len() == 0,
                self.table == old(self).table,
                forall|j: int| 0 <= j < i ==> player_reset(players0[j], #[trigger] self.players@[j]),
                forall|j: int| i <= j < players0.len() ==> #[trigger] self.players@[j] == players0[j],
            decreases players0.len() - i,
        {
            self.players[i].reset_for_new_hand();
            i = i + 1;
        }
        proof {
            assert forall|j: int| 0 <= j < self.players@.len() implies #[trigger] self.players@[j].hole_cards@.len() <= 2 by {
                assert(player_reset(players0[j], self.players@[j]));
            }
        }
    }
}

} // verus!
