use crate::card_dealer::Card;
use vstd::prelude::*;

verus! {

/// One pot of chips. It collects, from every player, the part of their
/// commitment this round that lies between the level of the pot before it
/// (zero for the first pot) and its own `level`.
#[derive(Debug)]
pub struct Pot {
    pub total: u32,
    /// The players who may win this pot.
    pub eligible_players: Vec<String>,
    /// Set when the pot is resolved.
    pub winners: Option<Vec<String>>,
    /// The commitment up to which this pot collects.
    pub level: u32,
}

#[derive(Debug)]
pub struct Table {
    pub community_cards: Vec<Card>,
    /// Main pot first, then the side pots in order of creation.
    pub pots: Vec<Pot>,
    /// Each player's commitment this round, in order of first bet.
    pub player_bets: Vec<(String, u32)>,
    pub min_bet: u32,
    /// The largest commitment of the round so far.
    pub max_bet: u32,
}

pub open spec fn min_int(a: int, b: int) -> int {
    if a < b {
        a
    } else {
        b
    }
}

/// The part of a commitment `c` that lies between `lo` and `hi`.
pub open spec fn share(c: int, lo: int, hi: int) -> int {
    min_int(c, hi) - min_int(c, lo)
}

/// All chips committed in the ledger.
pub open spec fn committed(ledger: Seq<(String, u32)>) -> int
    decreases ledger.len(),
{
    if ledger.len() == 0 {
        0
    } else {
        committed(ledger.drop_last()) + ledger.last().1
    }
}

/// The chips of the ledger that lie between the levels `lo` and `hi`.
pub open spec fn layer_total(ledger: Seq<(String, u32)>, lo: int, hi: int) -> int
    decreases ledger.len(),
{
    if ledger.len() == 0 {
        0
    } else {
        layer_total(ledger.drop_last(), lo, hi) + share(ledger.last().1 as int, lo, hi)
    }
}

/// The commitment of the player `id`; zero for one who has not bet.
pub open spec fn commitment(ledger: Seq<(String, u32)>, id: Seq<char>) -> int
    decreases ledger.len(),
{
    if ledger.len() == 0 {
        0
    } else if ledger.last().0@ == id {
        ledger.last().1 as int
    } else {
        commitment(ledger.drop_last(), id)
    }
}

/// No player appears twice in the ledger.
pub open spec fn ids_distinct(ledger: Seq<(String, u32)>) -> bool {
    forall|i: int, j: int| 0 <= i < j < ledger.len() ==> ledger[i].0@ != ledger[j].0@
}

/// The identifiers, as character sequences.
pub open spec fn ids(v: Seq<String>) -> Seq<Seq<char>> {
    v.map_values(|s: String| s@)
}

/// The sum of the pots' totals.
pub open spec fn pot_sum(pots: Seq<Pot>) -> int
    decreases pots.len(),
{
    if pots.len() == 0 {
        0
    } else {
        pot_sum(pots.drop_last()) + pots.last().total
    }
}

/// The levels of the pots, in order.
pub open spec fn levels(pots: Seq<Pot>) -> Seq<u32> {
    pots.map_values(|p: Pot| p.level)
}

/// The level below which the pot at position `k` collects nothing.
pub open spec fn floor_of(pots: Seq<Pot>, k: int) -> int {
    if k <= 0 {
        0
    } else {
        pots[k - 1].level as int
    }
}

// ---------------------------------------------------------------------
// Facts about the ledger.
// ---------------------------------------------------------------------
proof fn lemma_commitment_at(ledger: Seq<(String, u32)>, i: int)
    requires
        ids_distinct(ledger),
        0 <= i < ledger.len(),
    ensures
        commitment(ledger, ledger[i].0@) == ledger[i].1,
    decreases ledger.len(),
{
    if i < ledger.len() - 1 {
        lemma_commitment_at(ledger.drop_last(), i);
    }
}

proof fn lemma_commitment_absent(ledger: Seq<(String, u32)>, id: Seq<char>)
    requires
        forall|i: int| 0 <= i < ledger.len() ==> ledger[i].0@ != id,
    ensures
        commitment(ledger, id) == 0,
    decreases ledger.len(),
{
    if ledger.len() > 0 {
        lemma_commitment_absent(ledger.drop_last(), id);
    }
}

/// After replacing the entry at `i` (keeping its player), every player's
/// commitment is as before but for that player's, which is the new amount.
proof fn lemma_commitment_update(ledger: Seq<(String, u32)>, i: int, e: (String, u32), q: Seq<char>)
    requires
        ids_distinct(ledger),
        0 <= i < ledger.len(),
        e.0@ == ledger[i].0@,
    ensures
        ids_distinct(ledger.update(i, e)),
        commitment(ledger.update(i, e), q) == if q == e.0@ {
            e.1 as int
        } else {
            commitment(ledger, q)
        },
{
    let l2 = ledger.update(i, e);
    assert(ids_distinct(l2)) by {
        assert forall|a: int, b: int| 0 <= a < b < l2.len() implies l2[a].0@ != l2[b].0@ by {
            assert(l2[a].0@ == ledger[a].0@);
            assert(l2[b].0@ == ledger[b].0@);
        }
    }
    if q == e.0@ {
        lemma_commitment_at(l2, i);
    } else if exists|j: int| 0 <= j < ledger.len() && ledger[j].0@ == q {
        let j = choose|j: int| 0 <= j < ledger.len() && ledger[j].0@ == q;
        lemma_commitment_at(ledger, j);
        lemma_commitment_at(l2, j);
    } else {
        lemma_commitment_absent(ledger, q);
        assert forall|j: int| 0 <= j < l2.len() implies l2[j].0@ != q by {
            assert(l2[j].0@ == ledger[j].0@);
        }
        lemma_commitment_absent(l2, q);
    }
}

/// After adding an entry for a new player, every other commitment is as
/// before.
proof fn lemma_commitment_push(ledger: Seq<(String, u32)>, e: (String, u32), q: Seq<char>)
    requires
        ids_distinct(ledger),
        forall|i: int| 0 <= i < ledger.len() ==> ledger[i].0@ != e.0@,
    ensures
        ids_distinct(ledger.push(e)),
        commitment(ledger.push(e), q) == if q == e.0@ {
            e.1 as int
        } else {
            commitment(ledger, q)
        },
{
    assert(ledger.push(e).drop_last() =~= ledger);
}

proof fn lemma_committed_update(ledger: Seq<(String, u32)>, i: int, e: (String, u32))
    requires
        0 <= i < ledger.len(),
    ensures
        committed(ledger.update(i, e)) == committed(ledger) - ledger[i].1 + e.1,
    decreases ledger.len(),
{
    let l2 = ledger.update(i, e);
    if i == ledger.len() - 1 {
        assert(l2.drop_last() =~= ledger.drop_last());
    } else {
        lemma_committed_update(ledger.drop_last(), i, e);
        assert(l2.drop_last() =~= ledger.drop_last().update(i, e));
    }
}

proof fn lemma_layer_total_update(ledger: Seq<(String, u32)>, i: int, e: (String, u32), lo: int, hi: int)
    requires
        0 <= i < ledger.len(),
    ensures
        layer_total(ledger.update(i, e), lo, hi) == layer_total(ledger, lo, hi) - share(
            ledger[i].1 as int,
            lo,
            hi,
        ) + share(e.1 as int, lo, hi),
    decreases ledger.len(),
{
    let l2 = ledger.update(i, e);
    if i == ledger.len() - 1 {
        assert(l2.drop_last() =~= ledger.drop_last());
    } else {
        lemma_layer_total_update(ledger.drop_last(), i, e, lo, hi);
        assert(l2.drop_last() =~= ledger.drop_last().update(i, e));
    }
}

proof fn lemma_push_sums(ledger: Seq<(String, u32)>, e: (String, u32), lo: int, hi: int)
    ensures
        committed(ledger.push(e)) == committed(ledger) + e.1,
        layer_total(ledger.push(e), lo, hi) == layer_total(ledger, lo, hi) + share(e.1 as int, lo, hi),
{
    assert(ledger.push(e).drop_last() =~= ledger);
}

proof fn lemma_entry_within_committed(ledger: Seq<(String, u32)>, i: int)
    requires
        0 <= i < ledger.len(),
    ensures
        ledger[i].1 <= committed(ledger),
        committed(ledger) >= 0,
    decreases ledger.len(),
{
    lemma_committed_nonneg(ledger.drop_last());
    if i < ledger.len() - 1 {
        lemma_entry_within_committed(ledger.drop_last(), i);
    }
}

proof fn lemma_committed_nonneg(ledger: Seq<(String, u32)>)
    ensures
        committed(ledger) >= 0,
    decreases ledger.len(),
{
    if ledger.len() > 0 {
        lemma_committed_nonneg(ledger.drop_last());
    }
}

proof fn lemma_layer_within_committed(ledger: Seq<(String, u32)>, lo: int, hi: int)
    requires
        0 <= lo <= hi,
    ensures
        0 <= layer_total(ledger, lo, hi) <= committed(ledger),
    decreases ledger.len(),
{
    if ledger.len() > 0 {
        lemma_layer_within_committed(ledger.drop_last(), lo, hi);
    }
}

/// No chips lie above a level that every commitment stays under.
proof fn lemma_layer_empty_above(ledger: Seq<(String, u32)>, lo: int, hi: int)
    requires
        lo <= hi,
        forall|i: int| 0 <= i < ledger.len() ==> ledger[i].1 <= lo,
    ensures
        layer_total(ledger, lo, hi) == 0,
    decreases ledger.len(),
{
    if ledger.len() > 0 {
        lemma_layer_empty_above(ledger.drop_last(), lo, hi);
    }
}

proof fn lemma_pot_sum_update(pots: Seq<Pot>, k: int, p: Pot)
    requires
        0 <= k < pots.len(),
    ensures
        pot_sum(pots.update(k, p)) == pot_sum(pots) - pots[k].total + p.total,
    decreases pots.len(),
{
    let after = pots.update(k, p);
    if k == pots.len() - 1 {
        assert(after.drop_last() =~= pots.drop_last());
    } else {
        lemma_pot_sum_update(pots.drop_last(), k, p);
        assert(after.drop_last() =~= pots.drop_last().update(k, p));
    }
}

proof fn lemma_pot_sum_push(pots: Seq<Pot>, p: Pot)
    ensures
        pot_sum(pots.push(p)) == pot_sum(pots) + p.total,
{
    assert(pots.push(p).drop_last() =~= pots);
}

// ---------------------------------------------------------------------
// Lookups.
// ---------------------------------------------------------------------
/// The position of the player's entry in the ledger, if any.
fn find_bet(bets: &Vec<(String, u32)>, id: &String) -> (r: Option<usize>)
    ensures
        r matches Some(i) ==> i < bets@.len() && bets@[i as int].0@ == id@,
        r is None ==> forall|i: int| 0 <= i < bets@.len() ==> bets@[i].0@ != id@,
{
    let mut i: usize = 0;
    while i < bets.len()
        invariant
            i <= bets@.len(),
            forall|j: int| 0 <= j < i ==> bets@[j].0@ != id@,
        decreases bets@.len() - i,
    {
        if bets[i].0 == *id {
            return Some(i);
        }
        i = i + 1;
    }
    None
}

/// Whether the identifier is in the list.
pub(crate) fn contains_id(list: &[String], id: &String) -> (b: bool)
    ensures
        b == ids(list@).contains(id@),
{
    let mut i: usize = 0;
    while i < list.len()
        invariant
            i <= list@.len(),
            forall|j: int| 0 <= j < i ==> list@[j]@ != id@,
        decreases list@.len() - i,
    {
        if list[i] == *id {
            assert(ids(list@)[i as int] == id@);
            return true;
        }
        i = i + 1;
    }
    proof {
        assert forall|j: int| 0 <= j < ids(list@).len() implies ids(list@)[j] != id@ by {
            assert(list@[j]@ != id@);
        }
    }
    false
}

impl Table {
    /// The pots partition the round's chips by commitment level: each pot
    /// holds every player's share between its floor and its level, and may
    /// be won exactly by the players whose commitment reaches above its
    /// floor.
    pub open spec fn wf(self) -> bool {
        let pots = self.pots@;
        let ledger = self.player_bets@;
        &&& ids_distinct(ledger)
        &&& committed(ledger) <= u32::MAX
        &&& self.max_bet == floor_of(pots, pots.len() as int)
        &&& forall|i: int| 0 <= i < ledger.len() ==> #[trigger] ledger[i].1 <= self.max_bet
        &&& pots_match(pots, ledger)
        &&& pot_sum(pots) == committed(ledger)
    }

    pub fn new() -> (t: Self)
        ensures
            t.wf(),
            t.community_cards@.len() == 0,
            t.pots@.len() == 0,
            t.player_bets@.len() == 0,
            t.min_bet == 0,
            t.max_bet == 0,
    {
        proof {
            reveal(pots_match);
        }
        Self {
            community_cards: Vec::new(),
            pots: Vec::new(),
            player_bets: Vec::new(),
            min_bet: 0,
            max_bet: 0,
        }
    }

    /// All chips committed this round.
    fn total_committed(&self) -> (s: u32)
        requires
            self.wf(),
        ensures
            s == committed(self.player_bets@),
    {
        let mut s: u32 = 0;
        let mut i: usize = 0;
        while i < self.player_bets.len()
            invariant
                self.wf(),
                i <= self.player_bets@.len(),
                s == committed(self.player_bets@.take(i as int)),
            decreases self.player_bets@.len() - i,
        {
            proof {
                let l = self.player_bets@;
                assert(l.take(i + 1).drop_last() =~= l.take(i as int));
                lemma_committed_prefix(l, i + 1);
            }
            s = s + self.player_bets[i].1;
            i = i + 1;
        }
        proof {
            assert(self.player_bets@.take(self.player_bets@.len() as int) =~= self.player_bets@);
        }
        s
    }
}

proof fn lemma_committed_prefix(ledger: Seq<(String, u32)>, n: int)
    requires
        0 <= n <= ledger.len(),
    ensures
        committed(ledger.take(n)) <= committed(ledger),
    decreases ledger.len() - n,
{
    if n < ledger.len() {
        lemma_committed_prefix(ledger, n + 1);
        assert(ledger.take(n + 1).drop_last() =~= ledger.take(n));
    } else {
        assert(ledger.take(n) =~= ledger);
    }
}

proof fn lemma_commitment_bound(ledger: Seq<(String, u32)>, id: Seq<char>, cap: int)
    requires
        forall|i: int| 0 <= i < ledger.len() ==> ledger[i].1 <= cap,
        0 <= cap,
    ensures
        0 <= commitment(ledger, id) <= cap,
    decreases ledger.len(),
{
    if ledger.len() > 0 {
        lemma_commitment_bound(ledger.drop_last(), id, cap);
    }
}

proof fn lemma_ids_push(v: Seq<String>, s: String)
    ensures
        ids(v.push(s)) == ids(v).push(s@),
{
    assert(ids(v.push(s)) =~= ids(v).push(s@));
}

/// Eligibility follows the betting history alone: a player whose
/// commitment stops at or below a pot's floor (one who was capped before
/// the others went on betting) is not among that pot's eligible players,
/// and one whose commitment reaches above it is.
pub proof fn lemma_capped_player_excluded(t: Table, k: int, id: Seq<char>)
    requires
        t.wf(),
        0 <= k < t.pots@.len(),
    ensures
        ids(t.pots@[k].eligible_players@).contains(id) <==> commitment(t.player_bets@, id)
            > floor_of(t.pots@, k),
{
    reveal(pots_match);
}

/// The pots together hold exactly the chips committed this round.
pub proof fn lemma_pots_hold_all_bets(t: Table)
    requires
        t.wf(),
    ensures
        pot_sum(t.pots@) == committed(t.player_bets@),
{
}

/// The pots partition the chips of `ledger` by commitment level: each pot
/// lies above the one before it, holds every player's share between its
/// floor and its level, and may be won exactly by the players whose
/// commitment reaches above its floor.
#[verifier::opaque]
pub open spec fn pots_match(pots: Seq<Pot>, ledger: Seq<(String, u32)>) -> bool {
    &&& forall|k: int| 0 <= k < pots.len() ==> floor_of(pots, k) < #[trigger] pots[k].level
    &&& forall|k: int|
        0 <= k < pots.len() ==> #[trigger] pots[k].total == layer_total(
            ledger,
            floor_of(pots, k),
            pots[k].level as int,
        )
    &&& forall|k: int, id: Seq<char>|
        0 <= k < pots.len() ==> (#[trigger] ids(pots[k].eligible_players@).contains(id) <==> commitment(
            ledger,
            id,
        ) > floor_of(pots, k))
}

/// The ledger after the player `id`, whose commitment was `prior`, commits
/// `next` in all: the entry at `pos` is updated, or a new one is appended.
pub open spec fn updated_ledger(
    ledger: Seq<(String, u32)>,
    pos: Option<usize>,
    id: String,
    next: u32,
) -> Seq<(String, u32)> {
    match pos {
        Some(i) => ledger.update(i as int, (ledger[i as int].0, next)),
        None => ledger.push((id, next)),
    }
}

/// How the sums over a ledger move when one player's commitment goes from
/// `prior` to `next`.
#[verifier::opaque]
pub open spec fn ledger_step(
    old_ledger: Seq<(String, u32)>,
    new_ledger: Seq<(String, u32)>,
    id: Seq<char>,
    prior: int,
    next: int,
) -> bool {
    &&& ids_distinct(new_ledger)
    &&& committed(new_ledger) == committed(old_ledger) - prior + next
    &&& forall|q: Seq<char>| #[trigger]
        commitment(new_ledger, q) == if q == id {
            next
        } else {
            commitment(old_ledger, q)
        }
    &&& forall|lo: int, hi: int|
        0 <= lo && 0 <= hi ==> #[trigger] layer_total(new_ledger, lo, hi) == layer_total(
            old_ledger,
            lo,
            hi,
        ) - share(prior, lo, hi) + share(next, lo, hi)
}

proof fn lemma_updated_ledger(
    ledger: Seq<(String, u32)>,
    pos: Option<usize>,
    id: String,
    prior: u32,
    next: u32,
    cap: int,
)
    requires
        ids_distinct(ledger),
        pos matches Some(i) ==> i < ledger.len() && ledger[i as int].0@ == id@,
        pos is None ==> forall|i: int| 0 <= i < ledger.len() ==> ledger[i].0@ != id@,
        prior == commitment(ledger, id@),
        forall|i: int| 0 <= i < ledger.len() ==> ledger[i].1 <= cap,
        next <= cap,
    ensures
        ledger_step(ledger, updated_ledger(ledger, pos, id, next), id@, prior as int, next as int),
        ids_distinct(updated_ledger(ledger, pos, id, next)),
        committed(updated_ledger(ledger, pos, id, next)) == committed(ledger) - prior + next,
        forall|q: Seq<char>| #[trigger]
            commitment(updated_ledger(ledger, pos, id, next), q) == if q == id@ {
                next as int
            } else {
                commitment(ledger, q)
            },
        forall|i: int|
            0 <= i < updated_ledger(ledger, pos, id, next).len() ==> #[trigger] updated_ledger(
                ledger,
                pos,
                id,
                next,
            )[i].1 <= cap,
{
    reveal(ledger_step);
    let new_ledger = updated_ledger(ledger, pos, id, next);
    match pos {
        Some(i) => {
            let e = (ledger[i as int].0, next);
            lemma_commitment_at(ledger, i as int);
            lemma_committed_update(ledger, i as int, e);
            lemma_commitment_update(ledger, i as int, e, id@);
            assert forall|q: Seq<char>| #[trigger]
                commitment(new_ledger, q) == if q == id@ {
                    next as int
                } else {
                    commitment(ledger, q)
                } by {
                lemma_commitment_update(ledger, i as int, e, q);
            }
            assert forall|lo: int, hi: int|
                0 <= lo && 0 <= hi implies #[trigger] layer_total(new_ledger, lo, hi) == layer_total(
                ledger,
                lo,
                hi,
            ) - share(prior as int, lo, hi) + share(next as int, lo, hi) by {
                lemma_layer_total_update(ledger, i as int, e, lo, hi);
            }
        },
        None => {
            let e = (id, next);
            lemma_commitment_absent(ledger, id@);
            lemma_push_sums(ledger, e, 0, 0);
            lemma_commitment_push(ledger, e, id@);
            assert forall|q: Seq<char>| #[trigger]
                commitment(new_ledger, q) == if q == id@ {
                    next as int
                } else {
                    commitment(ledger, q)
                } by {
                lemma_commitment_push(ledger, e, q);
            }
            assert forall|lo: int, hi: int|
                0 <= lo && 0 <= hi implies #[trigger] layer_total(new_ledger, lo, hi) == layer_total(
                ledger,
                lo,
                hi,
            ) - share(prior as int, lo, hi) + share(next as int, lo, hi) by {
                lemma_push_sums(ledger, e, lo, hi);
            }
        },
    }
}

/// A pot that lies above all others, holding the chips between the top
/// level and its own, stays consistent when appended.
proof fn lemma_pots_match_push(pots: Seq<Pot>, ledger: Seq<(String, u32)>, pot: Pot)
    requires
        pots_match(pots, ledger),
        floor_of(pots, pots.len() as int) < pot.level,
        pot.total == layer_total(ledger, floor_of(pots, pots.len() as int), pot.level as int),
        forall|q: Seq<char>| #[trigger]
            ids(pot.eligible_players@).contains(q) <==> commitment(ledger, q) > floor_of(
                pots,
                pots.len() as int,
            ),
    ensures
        pots_match(pots.push(pot), ledger),
{
    reveal(pots_match);
    let after = pots.push(pot);
    assert forall|k: int| 0 <= k < after.len() implies floor_of(after, k) == floor_of(pots, k) by {}
    assert forall|k: int| 0 <= k < after.len() implies floor_of(after, k) < #[trigger] after[k].level by {
        assert(floor_of(after, k) == floor_of(pots, k));
    }
    assert forall|k: int| 0 <= k < after.len() implies #[trigger] after[k].total == layer_total(
        ledger,
        floor_of(after, k),
        after[k].level as int,
    ) by {
        assert(floor_of(after, k) == floor_of(pots, k));
    }
    assert forall|k: int, q: Seq<char>| 0 <= k < after.len() implies (#[trigger] ids(
        after[k].eligible_players@,
    ).contains(q) <==> commitment(ledger, q) > floor_of(after, k)) by {
        assert(floor_of(after, k) == floor_of(pots, k));
    }
}

proof fn lemma_push_contains(s: Seq<Seq<char>>, x: Seq<char>)
    ensures
        forall|q: Seq<char>| #[trigger] s.push(x).contains(q) <==> (s.contains(q) || q == x),
{
    assert forall|q: Seq<char>| #[trigger] s.push(x).contains(q) <==> (s.contains(q) || q == x) by {
        if s.contains(q) {
            let i = choose|i: int| 0 <= i < s.len() && s[i] == q;
            assert(s.push(x)[i] == q);
        }
        if q == x {
            assert(s.push(x)[s.len() as int] == q);
        }
        if s.push(x).contains(q) {
            let i = choose|i: int| 0 <= i < s.push(x).len() && s.push(x)[i] == q;
            if i < s.len() {
                assert(s[i] == q);
            }
        }
    }
}

/// Moves into `pot` the part of the player's remaining chips that lies
/// below the pot's level, given that the player has committed `level` so
/// far; returns how much was moved. A player who pays into a pot may win it.
fn pay_into(pot: &mut Pot, id: &String, level: u32, remaining: u32) -> (take: u32)
    requires
        old(pot).total + (if level < old(pot).level {
            min_int(remaining as int, old(pot).level - level)
        } else {
            0
        }) <= u32::MAX,
    ensures
        take == (if level < old(pot).level {
            min_int(remaining as int, old(pot).level - level)
        } else {
            0
        }),
        final(pot).total == old(pot).total + take,
        final(pot).level == old(pot).level,
        final(pot).winners == old(pot).winners,
        forall|q: Seq<char>| #[trigger]
            ids(final(pot).eligible_players@).contains(q) <==> (ids(
                old(pot).eligible_players@,
            ).contains(q) || (take > 0 && q == id@)),
{
    if level < pot.level && remaining > 0 {
        let room = pot.level - level;
        let take = if remaining < room {
            remaining
        } else {
            room
        };
        pot.total = pot.total + take;
        if !contains_id(pot.eligible_players.as_slice(), id) {
            let ghost before = pot.eligible_players@;
            let copy = id.clone();
            pot.eligible_players.push(copy);
            proof {
                lemma_ids_push(before, copy);
                lemma_push_contains(ids(before), copy@);
            }
        }
        take
    } else {
        0
    }
}

#[verifier::rlimit(60)]
/// Fills the existing pots, in order, with the chips a player adds to a
/// commitment of `prior`, each up to its level; returns what is left over
/// above the top level.
fn fill_pots(
    pots: &mut Vec<Pot>,
    id: &String,
    prior: u32,
    amount: u32,
    Ghost(old_ledger): Ghost<Seq<(String, u32)>>,
    Ghost(new_ledger): Ghost<Seq<(String, u32)>>,
) -> (remaining: u32)
    requires
        pots_match(old(pots)@, old_ledger),
        ledger_step(old_ledger, new_ledger, id@, prior as int, prior + amount),
        prior == commitment(old_ledger, id@),
        prior <= floor_of(old(pots)@, old(pots)@.len() as int),
        prior + amount <= u32::MAX,
        committed(new_ledger) <= u32::MAX,
    ensures
        remaining == amount - (floor_of(old(pots)@, old(pots)@.len() as int) - prior)
            || remaining == 0,
        remaining > 0 <==> prior + amount > floor_of(old(pots)@, old(pots)@.len() as int),
        remaining > 0 ==> remaining == prior + amount - floor_of(old(pots)@, old(pots)@.len() as int),
        final(pots)@.len() == old(pots)@.len(),
        pots_match(final(pots)@, new_ledger),
        forall|j: int|
            0 <= j < old(pots)@.len() ==> #[trigger] final(pots)@[j].level == old(pots)@[j].level
                && final(pots)@[j].winners == old(pots)@[j].winners,
        pot_sum(final(pots)@) == pot_sum(old(pots)@) + amount - remaining,
{
    proof {
        reveal(pots_match);
        reveal(ledger_step);
    }
    let ghost old_pots = pots@;
    let ghost next = prior + amount;
    let mut level: u32 = prior;
    let mut remaining: u32 = amount;
    let mut k: usize = 0;
    while k < pots.len()
        invariant
            pots@.len() == old_pots.len(),
            old_pots == old(pots)@,
            pots_match(old_pots, old_ledger),
            ledger_step(old_ledger, new_ledger, id@, prior as int, next),
            prior == commitment(old_ledger, id@),
            committed(new_ledger) <= u32::MAX,
            next == prior + amount,
            k <= old_pots.len(),
            prior <= level <= next,
            remaining == next - level,
            level as int == if prior as int > min_int(next, floor_of(old_pots, k as int)) {
                prior as int
            } else {
                min_int(next, floor_of(old_pots, k as int))
            },
            forall|j: int|
                0 <= j < old_pots.len() ==> #[trigger] pots@[j].level == old_pots[j].level
                    && pots@[j].winners == old_pots[j].winners,
            forall|j: int| k <= j < old_pots.len() ==> #[trigger] pots@[j] == old_pots[j],
            forall|j: int|
                0 <= j < k ==> #[trigger] pots@[j].total == layer_total(
                    new_ledger,
                    floor_of(old_pots, j),
                    old_pots[j].level as int,
                ),
            forall|j: int, q: Seq<char>|
                0 <= j < k ==> (#[trigger] ids(pots@[j].eligible_players@).contains(q)
                    <==> commitment(new_ledger, q) > floor_of(old_pots, j)),
            pot_sum(pots@) == pot_sum(old_pots) + (level - prior),
        decreases old_pots.len() - k,
    {
        let ghost before = pots@;
        let ghost lo = floor_of(old_pots, k as int);
        let ghost hi = old_pots[k as int].level as int;
        proof {
            reveal(pots_match);
            reveal(ledger_step);
            assert(lo < hi);
            assert(k > 0 ==> old_pots[k - 1].level == lo);
            assert(before[k as int] == old_pots[k as int]);
            lemma_layer_within_committed(new_ledger, lo, hi);
            assert(layer_total(new_ledger, lo, hi) == layer_total(old_ledger, lo, hi) - share(
                prior as int,
                lo,
                hi,
            ) + share(next, lo, hi));
        }
        let take = pay_into(&mut pots[k], id, level, remaining);
        level = level + take;
        remaining = remaining - take;
        proof {
            let now = pots@[k as int];
            assert(pots@ =~= before.update(k as int, now));
            lemma_pot_sum_update(before, k as int, now);
            assert forall|q: Seq<char>| #[trigger]
                ids(now.eligible_players@).contains(q) <==> commitment(new_ledger, q) > lo by {
                assert(ids(old_pots[k as int].eligible_players@).contains(q) <==> commitment(
                    old_ledger,
                    q,
                ) > lo);
            }
            assert(floor_of(old_pots, k + 1) == hi);
        }
        k = k + 1;
    }
    proof {
        reveal(pots_match);
    }
    remaining
}

/// A pot opened above all others by the only player to commit beyond the
/// top level keeps the pots consistent.
proof fn lemma_side_pot(
    pots: Seq<Pot>,
    old_ledger: Seq<(String, u32)>,
    new_ledger: Seq<(String, u32)>,
    id: Seq<char>,
    prior: u32,
    next: u32,
    top: int,
    pot: Pot,
)
    requires
        pots_match(pots, new_ledger),
        ledger_step(old_ledger, new_ledger, id, prior as int, next as int),
        top == floor_of(pots, pots.len() as int),
        0 <= top,
        prior <= top < next,
        forall|i: int| 0 <= i < old_ledger.len() ==> old_ledger[i].1 <= top,
        pot.total == next - top,
        pot.level == next,
        ids(pot.eligible_players@) == seq![id],
    ensures
        pots_match(pots.push(pot), new_ledger),
        pot_sum(pots.push(pot)) == pot_sum(pots) + pot.total,
{
    reveal(ledger_step);
    lemma_pot_sum_push(pots, pot);
    lemma_layer_empty_above(old_ledger, top, next as int);
    assert(layer_total(new_ledger, top, next as int) == pot.total);
    assert forall|q: Seq<char>| #[trigger]
        ids(pot.eligible_players@).contains(q) <==> commitment(new_ledger, q) > top by {
        lemma_commitment_bound(old_ledger, q, top);
        if q == id {
            assert(ids(pot.eligible_players@)[0] == q);
        }
    }
    lemma_pots_match_push(pots, new_ledger, pot);
}

impl Table {
    #[verifier::rlimit(60)]
    /// Records a bet that fits: fills the pots and updates the ledger.
    fn commit_bet(&mut self, player_id: &str, amount: u32)
        requires
            old(self).wf(),
            committed(old(self).player_bets@) + amount <= u32::MAX,
        ensures
            final(self).wf(),
            forall|q: Seq<char>| #[trigger]
                commitment(final(self).player_bets@, q) == if q == player_id@ {
                    commitment(old(self).player_bets@, q) + amount
                } else {
                    commitment(old(self).player_bets@, q)
                },
            committed(final(self).player_bets@) == committed(old(self).player_bets@) + amount,
            pot_sum(final(self).pots@) == pot_sum(old(self).pots@) + amount,
            commitment(old(self).player_bets@, player_id@) + amount > old(self).max_bet
                ==> final(self).pots@.len() == old(self).pots@.len() + 1 && final(self).pots@.last().level
                == commitment(old(self).player_bets@, player_id@) + amount && final(self).pots@.last().winners is None,
            commitment(old(self).player_bets@, player_id@) + amount <= old(self).max_bet
                ==> final(self).pots@.len() == old(self).pots@.len(),
            levels(final(self).pots@).take(old(self).pots@.len() as int) == levels(old(self).pots@),
            final(self).community_cards == old(self).community_cards,
            final(self).min_bet == old(self).min_bet,
    {
        let id: String = player_id.to_owned();
        let ghost old_ledger = self.player_bets@;
        let ghost max0 = self.max_bet as int;
        let pos = find_bet(&self.player_bets, &id);
        let prior: u32 = match pos {
            Some(i) => self.player_bets[i].1,
            None => 0,
        };
        proof {
            lemma_committed_nonneg(old_ledger);
            match pos {
                Some(i) => {
                    lemma_commitment_at(old_ledger, i as int);
                    lemma_entry_within_committed(old_ledger, i as int);
                },
                None => {
                    lemma_commitment_absent(old_ledger, id@);
                },
            }
        }
        let new_total: u32 = prior + amount;
        let ghost new_ledger = updated_ledger(old_ledger, pos, id, new_total);
        let ghost cap = if new_total > max0 {
            new_total as int
        } else {
            max0
        };
        proof {
            lemma_updated_ledger(old_ledger, pos, id, prior, new_total, cap);
        }
        let ghost pots0 = self.pots@;
        let remaining = fill_pots(&mut self.pots, &id, prior, amount, Ghost(old_ledger), Ghost(new_ledger));
        let ghost filled = self.pots@;
        if remaining > 0 {
            let mut eligible: Vec<String> = Vec::new();
            let copy = id.clone();
            eligible.push(copy);
            proof {
                assert(ids(eligible@) =~= seq![id@]);
            }
            let ghost before = self.pots@;
            let pot = Pot { total: remaining, eligible_players: eligible, winners: None, level: new_total };
            proof {
                lemma_side_pot(before, old_ledger, new_ledger, id@, prior, new_total, max0, pot);
            }
            self.pots.push(pot);
            self.max_bet = new_total;
            proof {
                assert(self.pots@ == filled.push(pot));
            }
        }
        proof {
            assert(self.pots@.len() >= filled.len());
            assert forall|k: int| 0 <= k < filled.len() implies self.pots@[k] == filled[k] by {}
        }
        match pos {
            Some(i) => {
                self.player_bets[i].1 = new_total;
            },
            None => {
                self.player_bets.push((id, new_total));
            },
        }
        proof {
            assert(self.player_bets@ =~= new_ledger);
            assert(pots0 == old(self).pots@);
            assert forall|k: int| 0 <= k < pots0.len() implies #[trigger] self.pots@[k].level
                == pots0[k].level by {
                assert(self.pots@[k] == filled[k]);
                assert(filled[k].level == pots0[k].level);
            }
            assert(levels(self.pots@).take(pots0.len() as int) =~= levels(pots0));
        }
    }


    /// Adds a player's bet. The chips fill, in order, each pot whose level
    /// the player's commitment has not reached yet, up to that level; what
    /// goes beyond the largest commitment so far opens a new side pot that
    /// only this player can win until others match it. Fails, changing
    /// nothing, when the round's chips would no longer fit a `u32`.
    pub fn add_bet(&mut self, player_id: &str, amount: u32) -> (r: Result<(), String>)
        requires
            old(self).wf(),
        ensures
            final(self).wf(),
            committed(old(self).player_bets@) + amount > u32::MAX ==> r is Err && *final(self)
                == *old(self),
            committed(old(self).player_bets@) + amount <= u32::MAX ==> r is Ok,
            r matches Err(e) ==> e@ == "Bet exceeds the chips a table can hold"@,
            r is Ok ==> forall|q: Seq<char>| #[trigger]
                commitment(final(self).player_bets@, q) == if q == player_id@ {
                    commitment(old(self).player_bets@, q) + amount
                } else {
                    commitment(old(self).player_bets@, q)
                },
            r is Ok ==> committed(final(self).player_bets@) == committed(old(self).player_bets@)
                + amount,
            r is Ok ==> pot_sum(final(self).pots@) == pot_sum(old(self).pots@) + amount,
            r is Ok && commitment(old(self).player_bets@, player_id@) + amount > old(self).max_bet
                ==> final(self).pots@.len() == old(self).pots@.len() + 1 && final(self).pots@.last().level
                == commitment(old(self).player_bets@, player_id@) + amount && final(self).pots@.last().winners is None,
            r is Ok && commitment(old(self).player_bets@, player_id@) + amount <= old(self).max_bet
                ==> final(self).pots@.len() == old(self).pots@.len(),
            levels(final(self).pots@).take(old(self).pots@.len() as int) == levels(old(self).pots@),
            final(self).community_cards == old(self).community_cards,
            final(self).min_bet == old(self).min_bet,
    {
        let so_far = self.total_committed();
        if amount > u32::MAX - so_far {
            proof {
                broadcast use vstd::string::to_string_from_display_ensures_for_str;

            }
            return Err("Bet exceeds the chips a table can hold".to_string());
        }
        self.commit_bet(player_id, amount);
        Ok(())
    }

    /// Clears the table for a new betting round.
    pub fn reset_for_new_round(&mut self)
        ensures
            final(self).wf(),
            final(self).community_cards@.len() == 0,
            final(self).pots@.len() == 0,
            final(self).player_bets@.len() == 0,
            final(self).min_bet == 0,
            final(self).max_bet == 0,
    {
        proof {
            reveal(pots_match);
        }
        self.community_cards.clear();
        self.pots.clear();
        self.player_bets.clear();
        self.min_bet = 0;
        self.max_bet = 0;
    }

    /// The players who have bet this round, in order of their first bet.
    pub fn active_players(&self) -> (r: Vec<String>)
        ensures
            ids(r@) == self.player_bets@.map_values(|e: (String, u32)| e.0@),
    {
        let mut r: Vec<String> = Vec::new();
        let mut i: usize = 0;
        while i < self.player_bets.len()
            invariant
                i <= self.player_bets@.len(),
                ids(r@) == self.player_bets@.take(i as int).map_values(|e: (String, u32)| e.0@),
            decreases self.player_bets@.len() - i,
        {
            let copy = self.player_bets[i].0.clone();
            proof {
                lemma_ids_push(r@, copy);
            }
            r.push(copy);
            proof {
                assert(self.player_bets@.take(i + 1).map_values(|e: (String, u32)| e.0@)
                    =~= self.player_bets@.take(i as int).map_values(|e: (String, u32)| e.0@).push(
                    copy@,
                ));
            }
            i = i + 1;
        }
        proof {
            assert(self.player_bets@.take(self.player_bets@.len() as int) =~= self.player_bets@);
        }
        r
    }
}

} // verus!
