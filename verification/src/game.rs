use vstd::prelude::*;

verus! {

use crate::card::Card;

/// The most chips the table as a whole (pot plus every stack) may hold;
/// keeps all chip arithmetic far from `u64` overflow.
pub const FUND_LIMIT: u64 = 0x4000_0000_0000_0000;

/// The most players the table seats; 9 players draw at most 23 cards per
/// hand, so a 52-card deck never runs out.
pub const MAX_SEATS: usize = 9;

/// The stack a newly seated player receives.
pub const STARTING_CHIPS: u64 = 1000;

pub const SMALL_BLIND: u64 = 5;

pub const BIG_BLIND: u64 = 10;

/// A seated player. `bet` is the current street's contribution, already
/// counted into the pot. A player who disconnects mid-hand is marked
/// folded and inactive, and is pruned when the hand ends.
#[derive(Debug)]
pub struct Player {
    pub id: String,
    pub name: String,
    pub chips: u64,
    pub hand: Vec<Card>,
    pub bet: u64,
    pub folded: bool,
    pub is_active: bool,
}

impl Player {
    pub fn new(id: String, name: String, chips: u64) -> (p: Player)
        ensures
            p.id == id,
            p.name == name,
            p.chips == chips,
            p.hand@.len() == 0,
            p.bet == 0,
            !p.folded,
            p.is_active,
    {
        Player { id, name, chips, hand: Vec::new(), bet: 0, folded: false, is_active: true }
    }
}

/// The phase of the table. `Showdown` is transient: no public step leaves
/// the table in it.
#[derive(Debug, Clone, Copy, PartialEq, Eq, Structural)]
pub enum GamePhase {
    Waiting,
    PreFlop,
    Flop,
    Turn,
    River,
    Showdown,
}

/// Whether the phase is one of the four betting streets.
pub open spec fn is_betting(p: GamePhase) -> bool {
    p == GamePhase::PreFlop || p == GamePhase::Flop || p == GamePhase::Turn || p == GamePhase::River
}

/// How many community cards are on the table in each phase.
pub open spec fn community_len_for(p: GamePhase) -> int {
    match p {
        GamePhase::Waiting => 0,
        GamePhase::PreFlop => 0,
        GamePhase::Flop => 3,
        GamePhase::Turn => 4,
        GamePhase::River => 5,
        GamePhase::Showdown => 5,
    }
}

/// The sum of all players' current-street bets.
pub open spec fn sum_bets(ps: Seq<Player>) -> int
    decreases ps.len(),
{
    if ps.len() == 0 {
        0
    } else {
        sum_bets(ps.drop_last()) + ps.last().bet
    }
}

/// The sum of all players' stacks.
pub open spec fn sum_chips(ps: Seq<Player>) -> int
    decreases ps.len(),
{
    if ps.len() == 0 {
        0
    } else {
        sum_chips(ps.drop_last()) + ps.last().chips
    }
}

/// How many players have not folded.
pub open spec fn count_unfolded(ps: Seq<Player>) -> int
    decreases ps.len(),
{
    if ps.len() == 0 {
        0
    } else {
        count_unfolded(ps.drop_last()) + if ps.last().folded {
            0int
        } else {
            1int
        }
    }
}

/// All hole cards on the table, in seating order.
pub open spec fn hole_cards_upto(ps: Seq<Player>, k: int) -> Seq<Card>
    decreases k,
{
    if k <= 0 {
        Seq::empty()
    } else {
        hole_cards_upto(ps, k - 1) + ps[k - 1].hand@
    }
}

pub open spec fn hole_cards(ps: Seq<Player>) -> Seq<Card> {
    hole_cards_upto(ps, ps.len() as int)
}

/// The one shared table: seating, board, pot and turn bookkeeping.
#[derive(Debug)]
pub struct GameState {
    pub players: Vec<Player>,
    pub community_cards: Vec<Card>,
    pub pot: u64,
    pub current_bet: u64,
    pub phase: GamePhase,
    pub current_player_idx: usize,
    pub dealer_idx: usize,
}

impl GameState {
    /// The table's well-formedness with a floor on how many players are
    /// still in the hand during a betting street. Mid-step, right after a
    /// fold, one live player may remain; the public steps restore two.
    pub open spec fn wf_with(&self, min_live: int) -> bool {
        let ps = self.players@;
        &&& ps.len() <= MAX_SEATS
        &&& self.community_cards@.len() == community_len_for(self.phase)
        &&& (is_betting(self.phase) || self.phase == GamePhase::Waiting)
        &&& (ps.len() == 0 ==> self.dealer_idx == 0 && self.phase == GamePhase::Waiting)
        &&& (ps.len() > 0 ==> self.dealer_idx < ps.len())
        &&& forall|i: int| 0 <= i < ps.len() ==> #[trigger] ps[i].bet <= self.current_bet
        &&& sum_bets(ps) <= self.pot
        &&& self.current_bet <= self.pot
        &&& self.pot + sum_chips(ps) <= FUND_LIMIT
        &&& forall|i: int| 0 <= i < ps.len() && !(#[trigger] ps[i].is_active) ==> ps[i].folded
        &&& forall|i: int, j: int|
            0 <= i < j < ps.len() ==> (#[trigger] ps[i]).id@ != (#[trigger] ps[j]).id@
        &&& (is_betting(self.phase) ==> {
            &&& 2 <= ps.len()
            &&& self.current_player_idx < ps.len()
            &&& !ps[self.current_player_idx as int].folded
            &&& count_unfolded(ps) >= min_live
            &&& forall|i: int| 0 <= i < ps.len() ==> (#[trigger] ps[i].hand)@.len() == 2
        })
        &&& (self.phase == GamePhase::Waiting ==> {
            &&& self.pot == 0
            &&& self.current_bet == 0
            &&& self.current_player_idx == 0
            &&& forall|i: int|
                0 <= i < ps.len() ==> (#[trigger] ps[i]).bet == 0 && !ps[i].folded
                    && ps[i].is_active && ps[i].hand@.len() == 0
        })
    }

    /// The table's well-formedness: every public step requires and
    /// re-establishes it.
    pub open spec fn wf(&self) -> bool {
        self.wf_with(2)
    }

    /// A fresh, empty table, waiting for players.
    pub fn new() -> (s: GameState)
        ensures
            s.wf(),
            s.players@.len() == 0,
            s.community_cards@.len() == 0,
            s.pot == 0,
            s.current_bet == 0,
            s.phase == GamePhase::Waiting,
            s.current_player_idx == 0,
            s.dealer_idx == 0,
    {
        GameState {
            players: Vec::new(),
            community_cards: Vec::new(),
            pot: 0,
            current_bet: 0,
            phase: GamePhase::Waiting,
            current_player_idx: 0,
            dealer_idx: 0,
        }
    }
}

/// Replacing one player changes each sum by that player's difference.
pub proof fn lemma_sums_update(ps: Seq<Player>, i: int, p: Player)
    requires
        0 <= i < ps.len(),
    ensures
        sum_bets(ps.update(i, p)) == sum_bets(ps) - ps[i].bet + p.bet,
        sum_chips(ps.update(i, p)) == sum_chips(ps) - ps[i].chips + p.chips,
        count_unfolded(ps.update(i, p)) == count_unfolded(ps) - (if ps[i].folded {
            0int
        } else {
            1int
        }) + (if p.folded {
            0int
        } else {
            1int
        }),
    decreases ps.len(),
{
    let u = ps.update(i, p);
    if i == ps.len() - 1 {
        assert(u.drop_last() =~= ps.drop_last());
        assert(u.last() == p);
    } else {
        assert(u.drop_last() =~= ps.drop_last().update(i, p));
        assert(u.last() == ps.last());
        lemma_sums_update(ps.drop_last(), i, p);
    }
}

/// Removing a seat takes exactly that player's figures out of each sum.
pub proof fn lemma_sums_remove(ps: Seq<Player>, i: int)
    requires
        0 <= i < ps.len(),
    ensures
        sum_bets(ps.remove(i)) == sum_bets(ps) - ps[i].bet,
        sum_chips(ps.remove(i)) == sum_chips(ps) - ps[i].chips,
        count_unfolded(ps.remove(i)) == count_unfolded(ps) - (if ps[i].folded {
            0int
        } else {
            1int
        }),
    decreases ps.len(),
{
    let u = ps.remove(i);
    if i == ps.len() - 1 {
        assert(u =~= ps.drop_last());
    } else {
        assert(u.drop_last() =~= ps.drop_last().remove(i));
        assert(u.last() == ps.last());
        lemma_sums_remove(ps.drop_last(), i);
    }
}

/// Seating one more player adds that player's figures to each sum.
pub proof fn lemma_sums_push(ps: Seq<Player>, p: Player)
    ensures
        sum_bets(ps.push(p)) == sum_bets(ps) + p.bet,
        sum_chips(ps.push(p)) == sum_chips(ps) + p.chips,
        count_unfolded(ps.push(p)) == count_unfolded(ps) + (if p.folded {
            0int
        } else {
            1int
        }),
{
    assert(ps.push(p).drop_last() =~= ps);
    assert(ps.push(p).last() == p);
}

/// Each player's bet, stack and fold flag are no more than the whole
/// table's.
pub proof fn lemma_sums_elem(ps: Seq<Player>, i: int)
    requires
        0 <= i < ps.len(),
    ensures
        ps[i].bet <= sum_bets(ps),
        ps[i].chips <= sum_chips(ps),
        (if ps[i].folded {
            0int
        } else {
            1int
        }) <= count_unfolded(ps),
        sum_bets(ps) >= 0,
        sum_chips(ps) >= 0,
        count_unfolded(ps) >= 0,
    decreases ps.len(),
{
    lemma_sums_nonneg(ps.drop_last());
    if i < ps.len() - 1 {
        lemma_sums_elem(ps.drop_last(), i);
    }
}

/// The sums are never negative, and no more non-folded players exist than
/// players.
pub proof fn lemma_sums_nonneg(ps: Seq<Player>)
    ensures
        sum_bets(ps) >= 0,
        sum_chips(ps) >= 0,
        0 <= count_unfolded(ps) <= ps.len(),
    decreases ps.len(),
{
    if ps.len() > 0 {
        lemma_sums_nonneg(ps.drop_last());
    }
}

/// A table where everyone still owes 0 has bet sum 0; one where nobody has
/// folded has as many live players as seats.
pub proof fn lemma_sums_pointwise(ps: Seq<Player>)
    ensures
        (forall|i: int| 0 <= i < ps.len() ==> (#[trigger] ps[i]).bet == 0) ==> sum_bets(ps) == 0,
        (forall|i: int| 0 <= i < ps.len() ==> !(#[trigger] ps[i]).folded) ==> count_unfolded(ps)
            == ps.len(),
    decreases ps.len(),
{
    if ps.len() > 0 {
        lemma_sums_pointwise(ps.drop_last());
    }
}

/// If every player has folded, no player is live.
pub proof fn lemma_count_unfolded_zero(ps: Seq<Player>)
    requires
        forall|i: int| 0 <= i < ps.len() ==> (#[trigger] ps[i]).folded,
    ensures
        count_unfolded(ps) == 0,
    decreases ps.len(),
{
    if ps.len() > 0 {
        lemma_count_unfolded_zero(ps.drop_last());
    }
}

/// A card is in play when some player holds it or it lies on the board.
pub open spec fn in_play(ps: Seq<Player>, comm: Seq<Card>, c: Card) -> bool {
    (exists|i: int, a: int|
        0 <= i < ps.len() && 0 <= a < ps[i].hand@.len() && #[trigger] ps[i].hand@[a] == c)
        || comm.contains(c)
}

/// The players still seated once inactive seats are pruned, in order.
pub open spec fn active_only(ps: Seq<Player>) -> Seq<Player>
    decreases ps.len(),
{
    if ps.len() == 0 {
        Seq::empty()
    } else {
        active_only(ps.drop_last()) + (if ps.last().is_active {
            seq![ps.last()]
        } else {
            Seq::empty()
        })
    }
}

/// Pruning keeps at most as many players and at most as many chips, and
/// every kept seat is one of the old active seats.
pub proof fn lemma_active_only(ps: Seq<Player>)
    ensures
        active_only(ps).len() <= ps.len(),
        sum_chips(active_only(ps)) <= sum_chips(ps),
        sum_chips(active_only(ps)) >= 0,
        forall|k: int|
            0 <= k < active_only(ps).len() ==> exists|j: int|
                0 <= j < ps.len() && #[trigger] active_only(ps)[k] == ps[j] && ps[j].is_active,
    decreases ps.len(),
{
    lemma_sums_nonneg(active_only(ps));
    if ps.len() > 0 {
        lemma_active_only(ps.drop_last());
        let rest = active_only(ps.drop_last());
        if ps.last().is_active {
            assert(active_only(ps) =~= rest.push(ps.last()));
            lemma_sums_push(rest, ps.last());
            assert forall|k: int| 0 <= k < active_only(ps).len() implies exists|j: int|
                0 <= j < ps.len() && #[trigger] active_only(ps)[k] == ps[j] && ps[j].is_active by {
                if k < rest.len() {
                    assert(active_only(ps)[k] == rest[k]);
                    let j = choose|j: int|
                        0 <= j < ps.drop_last().len() && #[trigger] rest[k] == ps.drop_last()[j]
                            && ps.drop_last()[j].is_active;
                    assert(ps.drop_last()[j] == ps[j]);
                } else {
                    assert(active_only(ps)[k] == ps[ps.len() - 1]);
                }
            }
        } else {
            assert(active_only(ps) =~= rest);
            assert forall|k: int| 0 <= k < active_only(ps).len() implies exists|j: int|
                0 <= j < ps.len() && #[trigger] active_only(ps)[k] == ps[j] && ps[j].is_active by {
                let j = choose|j: int|
                    0 <= j < ps.drop_last().len() && #[trigger] rest[k] == ps.drop_last()[j]
                        && ps.drop_last()[j].is_active;
                assert(ps.drop_last()[j] == ps[j]);
            }
        }
    }
}

/// When every seat is active, pruning changes nothing.
pub proof fn lemma_active_only_all(ps: Seq<Player>)
    requires
        forall|i: int| 0 <= i < ps.len() ==> (#[trigger] ps[i]).is_active,
    ensures
        active_only(ps) == ps,
    decreases ps.len(),
{
    if ps.len() == 0 {
        assert(active_only(ps) =~= ps);
    } else {
        lemma_active_only_all(ps.drop_last());
        assert(active_only(ps) =~= ps);
    }
}

/// Pruning a table of distinct ids keeps the ids distinct.
pub proof fn lemma_active_only_unique_ids(ps: Seq<Player>)
    requires
        forall|i: int, j: int|
            0 <= i < j < ps.len() ==> (#[trigger] ps[i]).id@ != (#[trigger] ps[j]).id@,
    ensures
        forall|i: int, j: int|
            0 <= i < j < active_only(ps).len() ==> (#[trigger] active_only(ps)[i]).id@ != (
            #[trigger] active_only(ps)[j]).id@,
    decreases ps.len(),
{
    if ps.len() > 0 {
        lemma_active_only_unique_ids(ps.drop_last());
        lemma_active_only(ps.drop_last());
        let rest = active_only(ps.drop_last());
        if ps.last().is_active {
            assert(active_only(ps) =~= rest.push(ps.last()));
            assert forall|i: int, j: int|
                0 <= i < j < active_only(ps).len() implies (#[trigger] active_only(ps)[i]).id@ != (
            #[trigger] active_only(ps)[j]).id@ by {
                if j == rest.len() {
                    let w = choose|w: int|
                        0 <= w < ps.drop_last().len() && #[trigger] rest[i] == ps.drop_last()[w]
                            && ps.drop_last()[w].is_active;
                    assert(ps[w] == rest[i]);
                    assert(ps[w].id@ != ps[ps.len() - 1].id@);
                } else {
                    assert(active_only(ps)[i] == rest[i]);
                    assert(active_only(ps)[j] == rest[j]);
                }
            }
        } else {
            assert(active_only(ps) =~= rest);
        }
    }
}

/// Two seatings with the same stacks pointwise hold the same chips.
pub proof fn lemma_sum_chips_pointwise(ps1: Seq<Player>, ps2: Seq<Player>)
    requires
        ps1.len() == ps2.len(),
        forall|i: int| 0 <= i < ps1.len() ==> (#[trigger] ps1[i]).chips == ps2[i].chips,
    ensures
        sum_chips(ps1) == sum_chips(ps2),
    decreases ps1.len(),
{
    if ps1.len() > 0 {
        lemma_sum_chips_pointwise(ps1.drop_last(), ps2.drop_last());
    }
}

/// An active seat survives pruning.
pub proof fn lemma_active_only_member(ps: Seq<Player>, j: int)
    requires
        0 <= j < ps.len(),
        ps[j].is_active,
    ensures
        exists|k: int| 0 <= k < active_only(ps).len() && #[trigger] active_only(ps)[k] == ps[j],
    decreases ps.len(),
{
    let rest = active_only(ps.drop_last());
    if j == ps.len() - 1 {
        assert(active_only(ps) =~= rest.push(ps.last()));
        assert(active_only(ps)[rest.len() as int] == ps[j]);
    } else {
        lemma_active_only_member(ps.drop_last(), j);
        let k = choose|k: int|
            0 <= k < rest.len() && #[trigger] rest[k] == ps.drop_last()[j];
        assert(ps.drop_last()[j] == ps[j]);
        assert(active_only(ps)[k] == ps[j]);
    }
}

/// A prefix of the seating never sums to more chips than the whole table.
pub proof fn lemma_sum_chips_take(ps: Seq<Player>, k: int)
    requires
        0 <= k <= ps.len(),
    ensures
        0 <= sum_chips(ps.take(k)) <= sum_chips(ps),
        0 <= sum_bets(ps.take(k)) <= sum_bets(ps),
    decreases ps.len() - k,
{
    lemma_sums_nonneg(ps.take(k));
    if k == ps.len() {
        assert(ps.take(k) =~= ps);
    } else {
        lemma_sum_chips_take(ps, k + 1);
        assert(ps.take(k + 1).drop_last() =~= ps.take(k));
        assert(ps.take(k + 1).last() == ps[k]);
    }
}

/// Hands laid out as consecutive two-card chunks of one dealt sequence
/// concatenate back to that sequence.
pub proof fn lemma_hole_cards_chunks(ps: Seq<Player>, dealt: Seq<Card>, k: int)
    requires
        0 <= k <= ps.len(),
        forall|i: int| 0 <= i < k ==> (#[trigger] ps[i]).hand@ == dealt.subrange(2 * i, 2 * i + 2),
        dealt.len() >= 2 * k,
    ensures
        hole_cards_upto(ps, k) == dealt.take(2 * k),
    decreases k,
{
    if k == 0 {
        assert(hole_cards_upto(ps, 0) =~= dealt.take(0));
    } else {
        lemma_hole_cards_chunks(ps, dealt, k - 1);
        assert(hole_cards_upto(ps, k) =~= dealt.take(2 * k));
    }
}

/// Two seatings that agree pointwise on bets, stacks and fold flags have
/// the same sums.
pub proof fn lemma_sums_pointwise_eq(ps1: Seq<Player>, ps2: Seq<Player>)
    requires
        ps1.len() == ps2.len(),
        forall|i: int|
            0 <= i < ps1.len() ==> (#[trigger] ps1[i]).bet == ps2[i].bet && ps1[i].chips
                == ps2[i].chips && ps1[i].folded == ps2[i].folded,
    ensures
        sum_bets(ps1) == sum_bets(ps2),
        sum_chips(ps1) == sum_chips(ps2),
        count_unfolded(ps1) == count_unfolded(ps2),
    decreases ps1.len(),
{
    if ps1.len() > 0 {
        lemma_sums_pointwise_eq(ps1.drop_last(), ps2.drop_last());
    }
}

/// With two cards to a hand, the table holds two hole cards per seat.
pub proof fn lemma_hole_cards_len(ps: Seq<Player>, k: int)
    requires
        0 <= k <= ps.len(),
        forall|i: int| 0 <= i < ps.len() ==> (#[trigger] ps[i]).hand@.len() == 2,
    ensures
        hole_cards_upto(ps, k).len() == 2 * k,
    decreases k,
{
    if k > 0 {
        lemma_hole_cards_len(ps, k - 1);
    }
}

/// Every card of every hand is among the table's hole cards.
pub proof fn lemma_hole_cards_member(ps: Seq<Player>, k: int, i: int, a: int)
    requires
        0 <= i < k <= ps.len(),
        0 <= a < ps[i].hand@.len(),
    ensures
        hole_cards_upto(ps, k).contains(ps[i].hand@[a]),
    decreases k,
{
    if i == k - 1 {
        assert(hole_cards_upto(ps, k)[hole_cards_upto(ps, k - 1).len() + a] == ps[i].hand@[a]);
    } else {
        lemma_hole_cards_member(ps, k - 1, i, a);
        let ix = choose|ix: int|
            0 <= ix < hole_cards_upto(ps, k - 1).len() && #[trigger] hole_cards_upto(ps, k - 1)[ix]
                == ps[i].hand@[a];
        assert(hole_cards_upto(ps, k)[ix] == ps[i].hand@[a]);
    }
}

/// Distinct cards that are all in play number at most the table's card
/// slots: two per seat plus the board.
pub proof fn lemma_in_play_bound(dropped: Seq<Card>, ps: Seq<Player>, comm: Seq<Card>)
    requires
        dropped.no_duplicates(),
        forall|k: int| 0 <= k < dropped.len() ==> in_play(ps, comm, #[trigger] dropped[k]),
        forall|i: int| 0 <= i < ps.len() ==> (#[trigger] ps[i]).hand@.len() == 2,
    ensures
        dropped.len() <= 2 * ps.len() + comm.len(),
{
    broadcast use vstd::seq_lib::seq_to_set_is_finite;

    let allp = hole_cards(ps) + comm;
    lemma_hole_cards_len(ps, ps.len() as int);
    assert(allp.len() == 2 * ps.len() + comm.len());
    assert forall|k: int| 0 <= k < dropped.len() implies allp.contains(#[trigger] dropped[k]) by {
        if exists|i: int, a: int|
            0 <= i < ps.len() && 0 <= a < ps[i].hand@.len() && #[trigger] ps[i].hand@[a]
                == dropped[k] {
            let (i, a) = choose|i: int, a: int|
                0 <= i < ps.len() && 0 <= a < ps[i].hand@.len() && #[trigger] ps[i].hand@[a]
                    == dropped[k];
            lemma_hole_cards_member(ps, ps.len() as int, i, a);
            let ix = choose|ix: int|
                0 <= ix < hole_cards(ps).len() && #[trigger] hole_cards(ps)[ix] == dropped[k];
            assert(allp[ix] == dropped[k]);
        } else {
            let j = choose|j: int| 0 <= j < comm.len() && #[trigger] comm[j] == dropped[k];
            assert(allp[hole_cards(ps).len() + j] == dropped[k]);
        }
    }
    dropped.unique_seq_to_set();
    allp.lemma_cardinality_of_set();
    assert(dropped.to_set().subset_of(allp.to_set()));
    vstd::set_lib::lemma_len_subset(dropped.to_set(), allp.to_set());
}

/// Two seatings with the same fold flags pointwise keep the same number of
/// live players.
pub proof fn lemma_count_unfolded_pointwise(ps1: Seq<Player>, ps2: Seq<Player>)
    requires
        ps1.len() == ps2.len(),
        forall|i: int| 0 <= i < ps1.len() ==> (#[trigger] ps1[i]).folded == ps2[i].folded,
    ensures
        count_unfolded(ps1) == count_unfolded(ps2),
    decreases ps1.len(),
{
    if ps1.len() > 0 {
        lemma_count_unfolded_pointwise(ps1.drop_last(), ps2.drop_last());
    }
}

/// Two different seats still in the hand mean at least two live players.
pub proof fn lemma_count_unfolded_two(ps: Seq<Player>, i: int, j: int)
    requires
        0 <= i < j < ps.len(),
        !ps[i].folded,
        !ps[j].folded,
    ensures
        count_unfolded(ps) >= 2,
    decreases ps.len(),
{
    if j == ps.len() - 1 {
        lemma_sums_elem(ps.drop_last(), i);
    } else {
        lemma_count_unfolded_two(ps.drop_last(), i, j);
    }
}

/// The table's hole cards depend only on the seats up to `k`.
pub proof fn lemma_hole_cards_upto_agree(ps1: Seq<Player>, ps2: Seq<Player>, k: int)
    requires
        forall|i: int| 0 <= i < k ==> #[trigger] ps1[i].hand@ == ps2[i].hand@,
    ensures
        hole_cards_upto(ps1, k) == hole_cards_upto(ps2, k),
    decreases k,
{
    if k > 0 {
        lemma_hole_cards_upto_agree(ps1, ps2, k - 1);
    }
}

} // verus!
