use vstd::prelude::*;

verus! {

use vstd::string::StringExecFns;
use crate::card::{Card, Deck, clone_cards, lemma_no_duplicates_from_multiset};
use crate::game::{
    GameState, GamePhase, Player, sum_bets, sum_chips, count_unfolded, is_betting, hole_cards,
    in_play, active_only, community_len_for, lemma_in_play_bound, lemma_count_unfolded_pointwise,
    lemma_sums_push, lemma_sum_chips_take, lemma_count_unfolded_zero, lemma_count_unfolded_two,
    lemma_sums_update, lemma_sums_remove, lemma_sums_pointwise, lemma_sums_pointwise_eq,
    lemma_sums_elem, lemma_active_only, lemma_active_only_member, lemma_active_only_unique_ids,
    lemma_sum_chips_pointwise, lemma_hole_cards_chunks, lemma_hole_cards_upto_agree, FUND_LIMIT,
    MAX_SEATS, STARTING_CHIPS, SMALL_BLIND, BIG_BLIND,
};
use crate::hand::{
    HandValue, HandRank, hv_lt, category, tiebreak, pick5, idx5_ok, hand_value_lt, find_best_hand,
    lemma_best_improves, lemma_hv_not_lt_compose, lemma_hv_lt_trichotomy, lemma_sentinel_lt,
};
use crate::protocol::{Outbound, ServerMessage, ClientMessage, action_text, describe_action};

/// The seat after `i` at a table of `n` seats.
pub open spec fn seat_after(n: int, i: int) -> int {
    if i + 1 >= n {
        i + 1 - n
    } else {
        i + 1
    }
}

/// The named player with the pot added to their stack.
pub open spec fn spec_award(p: Player, amount: u64) -> Player {
    Player {
        id: p.id,
        name: p.name,
        chips: (p.chips + amount) as u64,
        hand: p.hand,
        bet: p.bet,
        folded: p.folded,
        is_active: p.is_active,
    }
}

/// The two seats hold the same player: same identity, name, stack and
/// connection state.
pub open spec fn seat_like(a: Player, b: Player) -> bool {
    &&& a.id@ == b.id@
    &&& a.name@ == b.name@
    &&& a.chips == b.chips
    &&& a.is_active == b.is_active
}

/// `ks` holds the same players as `ps`, seat by seat, with every
/// hand-scoped field reset.
pub open spec fn seats_match(ks: Seq<Player>, ps: Seq<Player>) -> bool {
    &&& ks.len() == ps.len()
    &&& forall|k: int|
        0 <= k < ks.len() ==> seat_like(#[trigger] ks[k], ps[k]) && ks[k].bet == 0
            && !ks[k].folded && ks[k].is_active && ks[k].hand@.len() == 0
}

/// Pruning respects seat identity: tables that agree seat by seat on who
/// sits where prune to tables that still agree.
pub proof fn lemma_active_only_like(ps1: Seq<Player>, ps2: Seq<Player>)
    requires
        ps1.len() == ps2.len(),
        forall|i: int| 0 <= i < ps1.len() ==> seat_like(#[trigger] ps1[i], ps2[i]),
    ensures
        active_only(ps1).len() == active_only(ps2).len(),
        forall|k: int|
            0 <= k < active_only(ps1).len() ==> seat_like(
                #[trigger] active_only(ps1)[k],
                active_only(ps2)[k],
            ),
    decreases ps1.len(),
{
    if ps1.len() > 0 {
        assert(seat_like(ps1[ps1.len() - 1], ps2[ps2.len() - 1]));
        lemma_active_only_like(ps1.drop_last(), ps2.drop_last());
        let r1 = active_only(ps1.drop_last());
        let r2 = active_only(ps2.drop_last());
        if ps1.last().is_active {
            assert(active_only(ps1) =~= r1.push(ps1.last()));
            assert(active_only(ps2) =~= r2.push(ps2.last()));
        } else {
            assert(active_only(ps1) =~= r1);
            assert(active_only(ps2) =~= r2);
        }
    }
}

/// The seven cards seat `i` can draw on at showdown: two hole cards and
/// the five community cards.
pub open spec fn seven_cards(ps: Seq<Player>, comm: Seq<Card>, i: int) -> Seq<Card> {
    ps[i].hand@ + comm
}

/// The five-card hand `sw` scores at least as high as every five-card
/// subset available to every player still in the hand.
pub open spec fn beats_everyone(ps: Seq<Player>, comm: Seq<Card>, sw: Seq<Card>) -> bool {
    forall|p: int, a: int, b: int, c: int, d: int, e: int|
        #![trigger pick5(seven_cards(ps, comm, p), a, b, c, d, e)]
        0 <= p < ps.len() && !ps[p].folded && idx5_ok(7, a, b, c, d, e) ==> !hv_lt(
            category(sw),
            tiebreak(sw),
            category(pick5(seven_cards(ps, comm, p), a, b, c, d, e)),
            tiebreak(pick5(seven_cards(ps, comm, p), a, b, c, d, e)),
        )
}

/// Seat `w` wins the showdown: it is still in the hand and some five of its
/// seven cards score at least as high as every hand any contender can make.
pub open spec fn best_at_showdown(ps: Seq<Player>, comm: Seq<Card>, w: int) -> bool {
    &&& 0 <= w < ps.len()
    &&& !ps[w].folded
    &&& exists|a: int, b: int, c: int, d: int, e: int|
        #![trigger pick5(seven_cards(ps, comm, w), a, b, c, d, e)]
        idx5_ok(7, a, b, c, d, e) && beats_everyone(
            ps,
            comm,
            pick5(seven_cards(ps, comm, w), a, b, c, d, e),
        )
}

/// The player after folding.
pub open spec fn spec_fold(p: Player) -> Player {
    Player { folded: true, ..p }
}

/// The player after moving chips to raise their street bet to `target`.
pub open spec fn spec_bet_to(p: Player, target: u64) -> Player {
    Player { chips: (p.chips - (target - p.bet)) as u64, bet: target, ..p }
}

/// Whether the request is one of the four betting actions.
pub open spec fn is_action(a: ClientMessage) -> bool {
    a is Fold || a is Check || a is Call || a is Raise
}

/// Whether the table must refuse the action: a check while owing chips, or
/// a call or raise the player's stack cannot cover.
pub open spec fn action_blocked(p: Player, a: ClientMessage, cb: u64) -> bool {
    match a {
        ClientMessage::Check => p.bet < cb,
        ClientMessage::Call => cb - p.bet > p.chips,
        ClientMessage::Raise { amount } => cb + amount - p.bet > p.chips,
        _ => false,
    }
}

/// The actor's seat right after a legal action, before the hand settles.
pub open spec fn mid_player(p: Player, a: ClientMessage, cb: u64) -> Player {
    match a {
        ClientMessage::Fold => spec_fold(p),
        ClientMessage::Call => spec_bet_to(p, cb),
        ClientMessage::Raise { amount } => spec_bet_to(p, (cb + amount) as u64),
        _ => p,
    }
}

/// The table's bet to match right after a legal action.
pub open spec fn mid_cb(a: ClientMessage, cb: u64) -> u64 {
    match a {
        ClientMessage::Raise { amount } => (cb + amount) as u64,
        _ => cb,
    }
}

/// What a legal action adds to the pot.
pub open spec fn mid_pot_delta(p: Player, a: ClientMessage, cb: u64) -> int {
    match a {
        ClientMessage::Call => cb - p.bet,
        ClientMessage::Raise { amount } => cb + amount - p.bet,
        _ => 0,
    }
}

/// What a start request does to the table: between hands, with at least
/// two seats and both blinds affordable, a fresh hand begins -- two
/// distinct private cards to every seat, blinds posted, the pot at their
/// sum, and the small blind to act; otherwise nothing changes.
pub open spec fn start_outcome(pre: GameState, post: GameState, out: Seq<Outbound>) -> bool {
    let ps = pre.players@;
    let n = ps.len() as int;
    let sb = seat_after(n, pre.dealer_idx as int);
    let bb = seat_after(n, sb);
    let ok = pre.phase == GamePhase::Waiting && n >= 2 && ps[sb].chips >= SMALL_BLIND
        && ps[bb].chips >= BIG_BLIND;
    if ok {
        &&& post.phase == GamePhase::PreFlop
        &&& post.pot == SMALL_BLIND + BIG_BLIND
        &&& post.current_bet == BIG_BLIND
        &&& post.community_cards@.len() == 0
        &&& post.dealer_idx == pre.dealer_idx
        &&& post.current_player_idx == sb
        &&& post.players@.len() == n
        &&& sum_bets(post.players@) == post.pot
        &&& forall|i: int|
            0 <= i < n ==> {
                let q = #[trigger] post.players@[i];
                &&& q.id@ == ps[i].id@
                &&& q.name@ == ps[i].name@
                &&& q.is_active == ps[i].is_active
                &&& !q.folded
                &&& q.hand@.len() == 2
                &&& q.bet == (if i == sb {
                    SMALL_BLIND as int
                } else if i == bb {
                    BIG_BLIND as int
                } else {
                    0int
                })
                &&& q.chips == ps[i].chips - q.bet
            }
        &&& hole_cards(post.players@).no_duplicates()
        &&& out.len() == n + 1
        &&& forall|i: int|
            0 <= i < n ==> (#[trigger] out[i] matches Outbound::Unicast(
                pid,
                ServerMessage::DealCards { cards },
            ) && pid@ == ps[i].id@ && cards@ == post.players@[i].hand@)
        &&& out[n] is BroadcastState
    } else {
        &&& post == pre
        &&& out.len() == 0
    }
}

/// The street that follows each betting street.
pub open spec fn spec_next_phase(p: GamePhase) -> GamePhase {
    match p {
        GamePhase::PreFlop => GamePhase::Flop,
        GamePhase::Flop => GamePhase::Turn,
        GamePhase::Turn => GamePhase::River,
        _ => p,
    }
}

/// Every player still in the hand has matched the bet: the street is over.
pub open spec fn street_done(ps: Seq<Player>, cb: u64) -> bool {
    forall|i: int| 0 <= i < ps.len() && !(#[trigger] ps[i]).folded ==> ps[i].bet == cb
}

/// The request changed nothing and its sender alone was told why.
pub open spec fn rejected_with_error(
    pre: GameState,
    post: GameState,
    pid: Seq<char>,
    out: Seq<Outbound>,
    msg: Seq<char>,
) -> bool {
    &&& post == pre
    &&& out.len() == 1
    &&& (out[0] matches Outbound::Unicast(to, ServerMessage::Error { message }) && to@ == pid
        && message@ == msg)
}

/// After a legal action by seat `j` the mid-table is `mps`/`mpot`/`mcb`;
/// this says how the hand then settles: the action is announced to all,
/// then either one live player remains and takes the pot, or the turn
/// passes to the next live seat, or — once every live player has matched
/// the bet — the next street opens or, after the river, the showdown
/// decides the hand.
pub open spec fn settled_after(
    pre: GameState,
    post: GameState,
    mps: Seq<Player>,
    mpot: u64,
    mcb: u64,
    a: ClientMessage,
    pid: Seq<char>,
    out: Seq<Outbound>,
) -> bool {
    &&& out.len() == 2
    &&& (out[0] matches Outbound::Broadcast(ServerMessage::PlayerAction {
        player_id: apid,
        action: act,
    }) && apid@ == pid && act@ == action_text(a))
    &&& (count_unfolded(mps) == 1 ==> {
        &&& post.phase == GamePhase::Waiting
        &&& post.pot == 0
        &&& (forall|w: int|
            0 <= w < mps.len() && !(#[trigger] mps[w]).folded ==> exists|k: int|
                0 <= k < post.players@.len() && (#[trigger] post.players@[k]).id@ == mps[w].id@
                    && post.players@[k].chips == mps[w].chips + mpot)
        &&& (out[1] matches Outbound::Broadcast(ServerMessage::GameOver { amount, .. }) && amount
            == mpot)
    })
    &&& (count_unfolded(mps) >= 2 && !street_done(mps, mcb) ==> {
        &&& post.players@ == mps
        &&& post.pot == mpot
        &&& post.current_bet == mcb
        &&& post.phase == pre.phase
        &&& post.community_cards@ == pre.community_cards@
        &&& post.dealer_idx == pre.dealer_idx
        &&& first_unfolded_after(mps, pre.current_player_idx as int, post.current_player_idx as int)
        &&& out[1] is BroadcastState
    })
    &&& (count_unfolded(mps) >= 2 && street_done(mps, mcb) && pre.phase != GamePhase::River ==> {
        &&& post.phase == spec_next_phase(pre.phase)
        &&& post.pot == mpot
        &&& post.current_bet == 0
        &&& post.players@.len() == mps.len()
        &&& (forall|l: int|
            0 <= l < mps.len() ==> post.players@[l] == (Player { bet: 0u64, ..(#[trigger] mps[l]) }))
        &&& post.community_cards@.len() == community_len_for(spec_next_phase(pre.phase))
        &&& post.community_cards@.take(pre.community_cards@.len() as int)
            == pre.community_cards@
        &&& first_unfolded_after(
            post.players@,
            pre.dealer_idx as int,
            post.current_player_idx as int,
        )
        &&& out[1] is BroadcastState
    })
    &&& (count_unfolded(mps) >= 2 && street_done(mps, mcb) && pre.phase == GamePhase::River ==> {
        &&& post.phase == GamePhase::Waiting
        &&& post.pot == 0
        &&& exists|w: int|
            #[trigger] best_at_showdown(mps, pre.community_cards@, w) && (mps[w].is_active
                ==> exists|k: int|
                0 <= k < post.players@.len() && (#[trigger] post.players@[k]).id@ == mps[w].id@
                    && post.players@[k].chips == mps[w].chips + mpot) && (out[1]
                matches Outbound::Broadcast(ServerMessage::GameOver { winner_id, amount })
                && winner_id@ == mps[w].id@ && amount == mpot)
    })
}

/// How the hand settles once a seat drops out mid-hand: that seat is
/// folded and marked disconnected (no chips move), the turn passes on if it
/// was that seat's, and then attrition, street end or showdown follow
/// exactly as after a fold.
pub open spec fn removal_settled(
    pre: GameState,
    post: GameState,
    mps: Seq<Player>,
    j: int,
    out: Seq<Outbound>,
) -> bool {
    let mpot = pre.pot;
    let mcb = pre.current_bet;
    &&& (count_unfolded(mps) == 1 ==> {
        &&& post.phase == GamePhase::Waiting
        &&& post.pot == 0
        &&& (forall|w: int|
            0 <= w < mps.len() && !(#[trigger] mps[w]).folded ==> exists|k: int|
                0 <= k < post.players@.len() && (#[trigger] post.players@[k]).id@ == mps[w].id@
                    && post.players@[k].chips == mps[w].chips + mpot)
        &&& out.len() == 1
        &&& (out[0] matches Outbound::Broadcast(ServerMessage::GameOver { amount, .. }) && amount
            == mpot)
    })
    &&& (count_unfolded(mps) >= 2 && !street_done(mps, mcb) ==> {
        &&& post.players@ == mps
        &&& post.pot == mpot
        &&& post.current_bet == mcb
        &&& post.phase == pre.phase
        &&& post.community_cards@ == pre.community_cards@
        &&& post.dealer_idx == pre.dealer_idx
        &&& (j == pre.current_player_idx ==> first_unfolded_after(
            mps,
            pre.current_player_idx as int,
            post.current_player_idx as int,
        ))
        &&& (j != pre.current_player_idx ==> post.current_player_idx == pre.current_player_idx)
        &&& out.len() == 1
        &&& out[0] is BroadcastState
    })
    &&& (count_unfolded(mps) >= 2 && street_done(mps, mcb) && pre.phase != GamePhase::River ==> {
        &&& post.phase == spec_next_phase(pre.phase)
        &&& post.pot == mpot
        &&& post.current_bet == 0
        &&& post.players@.len() == mps.len()
        &&& (forall|l: int|
            0 <= l < mps.len() ==> post.players@[l] == (Player { bet: 0u64, ..(#[trigger] mps[l]) }))
        &&& first_unfolded_after(
            post.players@,
            pre.dealer_idx as int,
            post.current_player_idx as int,
        )
        &&& out.len() == 1
        &&& out[0] is BroadcastState
    })
    &&& (count_unfolded(mps) >= 2 && street_done(mps, mcb) && pre.phase == GamePhase::River ==> {
        &&& post.phase == GamePhase::Waiting
        &&& post.pot == 0
        &&& exists|w: int|
            #[trigger] best_at_showdown(mps, pre.community_cards@, w) && (mps[w].is_active
                ==> exists|k: int|
                0 <= k < post.players@.len() && (#[trigger] post.players@[k]).id@ == mps[w].id@
                    && post.players@[k].chips == mps[w].chips + mpot) && (out[0]
                matches Outbound::Broadcast(ServerMessage::GameOver { winner_id, amount })
                && winner_id@ == mps[w].id@ && amount == mpot)
    })
}

/// The pot always shows the street's bets: a legal betting action raises
/// the pot by exactly what it raises the actor's street bet, so the pot
/// minus the sum of all bets never moves within a street -- it is zero when
/// the blinds open the hand and stays the street's opening pot thereafter.
/// And no betting action changes what the actor holds in stack and street
/// bet together: chips only ever move into the pot, never appear.
pub proof fn lemma_pot_tracks_bets(ps: Seq<Player>, j: int, a: ClientMessage, cb: u64, pot: u64)
    requires
        0 <= j < ps.len(),
        ps[j].bet <= cb,
        is_action(a),
        a matches ClientMessage::Raise { amount } ==> cb + amount <= u64::MAX,
    ensures
        pot + mid_pot_delta(ps[j], a, cb) - sum_bets(ps.update(j, mid_player(ps[j], a, cb))) == pot
            - sum_bets(ps),
        !action_blocked(ps[j], a, cb) ==> mid_player(ps[j], a, cb).chips + mid_player(
            ps[j],
            a,
            cb,
        ).bet == ps[j].chips + ps[j].bet,
{
    lemma_sums_update(ps, j, mid_player(ps[j], a, cb));
}

/// What one request from the player at seat `j` does to the table.
pub open spec fn handled_action(
    pre: GameState,
    post: GameState,
    j: int,
    a: ClientMessage,
    pid: Seq<char>,
    out: Seq<Outbound>,
) -> bool {
    let ps = pre.players@;
    let cb = pre.current_bet;
    if !is_betting(pre.phase) {
        rejected_with_error(pre, post, pid, out, "No hand in progress"@)
    } else if j != pre.current_player_idx {
        rejected_with_error(pre, post, pid, out, "Not your turn"@)
    } else if !is_action(a) {
        post == pre && out.len() == 0
    } else if a is Check && ps[j].bet < cb {
        rejected_with_error(pre, post, pid, out, "Cannot check"@)
    } else if (a is Call || a is Raise) && action_blocked(ps[j], a, cb) {
        rejected_with_error(pre, post, pid, out, "Not enough chips"@)
    } else {
        settled_after(
            pre,
            post,
            ps.update(j, mid_player(ps[j], a, cb)),
            (pre.pot + mid_pot_delta(ps[j], a, cb)) as u64,
            mid_cb(a, cb),
            a,
            pid,
            out,
        )
    }
}

/// Seat `r` is the first non-folded seat strictly after `start`, searching
/// cyclically: every seat passed over on the way is folded.
pub open spec fn first_unfolded_after(ps: Seq<Player>, start: int, r: int) -> bool {
    &&& 0 <= r < ps.len()
    &&& !ps[r].folded
    &&& (start < r ==> forall|j: int| start < j < r ==> (#[trigger] ps[j]).folded)
    &&& (r <= start ==> (forall|j: int| start < j < ps.len() ==> (#[trigger] ps[j]).folded)
        && (forall|j: int| 0 <= j < r ==> (#[trigger] ps[j]).folded))
}

/// What a join request does to the table: a seat is added and the joiner
/// welcomed when the table is between hands, has a free seat, a fresh id
/// and room under the chip ceiling; otherwise nothing changes and the
/// joiner alone is told.
pub open spec fn join_outcome(
    pre: GameState,
    post: GameState,
    idv: Seq<char>,
    namev: Seq<char>,
    out: Seq<Outbound>,
) -> bool {
    let ps = pre.players@;
    let ok = pre.phase == GamePhase::Waiting && ps.len() < MAX_SEATS && pre.pot + sum_chips(ps)
        + STARTING_CHIPS <= FUND_LIMIT && (forall|j: int|
        0 <= j < ps.len() ==> (#[trigger] ps[j]).id@ != idv);
    if ok {
        &&& post.players@.len() == ps.len() + 1
        &&& forall|i: int| 0 <= i < ps.len() ==> post.players@[i] == ps[i]
        &&& post.players@.last().id@ == idv
        &&& post.players@.last().name@ == namev
        &&& post.players@.last().chips == STARTING_CHIPS
        &&& post.players@.last().bet == 0
        &&& !post.players@.last().folded
        &&& post.players@.last().is_active
        &&& post.players@.last().hand@.len() == 0
        &&& post.pot == pre.pot
        &&& post.current_bet == pre.current_bet
        &&& post.phase == pre.phase
        &&& post.community_cards@ == pre.community_cards@
        &&& post.current_player_idx == pre.current_player_idx
        &&& post.dealer_idx == pre.dealer_idx
        &&& out.len() == 2
        &&& (out[0] matches Outbound::Unicast(pid, ServerMessage::Welcome { player_id, chips })
            && pid@ == idv && player_id@ == idv && chips == STARTING_CHIPS)
        &&& out[1] is BroadcastState
    } else {
        &&& post == pre
        &&& out.len() == 1
        &&& (out[0] matches Outbound::Unicast(pid, ServerMessage::Error { .. }) && pid@ == idv)
    }
}

/// One error notice to the requester alone.
fn reject(player_id: &String, text: &str) -> (out: Vec<Outbound>)
    ensures
        out@.len() == 1,
        (out@[0] matches Outbound::Unicast(to, ServerMessage::Error { message }) && to@
            == player_id@ && message@ == text@),
{
    let msg = ServerMessage::Error { message: String::from_str(text) };
    let mut out: Vec<Outbound> = Vec::new();
    out.push(Outbound::Unicast(player_id.clone(), msg));
    out
}

impl GameState {
    /// The seat holding the player with this id, if any; ids are unique, so
    /// at most one seat matches.
    pub fn find_player(&self, id: &String) -> (r: Option<usize>)
        ensures
            r matches Some(i) ==> i < self.players@.len() && self.players@[i as int].id@ == id@
                && forall|j: int| 0 <= j < i ==> (#[trigger] self.players@[j]).id@ != id@,
            r is None ==> forall|j: int|
                0 <= j < self.players@.len() ==> (#[trigger] self.players@[j]).id@ != id@,
    {
        let mut i: usize = 0;
        while i < self.players.len()
            invariant
                i <= self.players@.len(),
                forall|j: int| 0 <= j < i ==> (#[trigger] self.players@[j]).id@ != id@,
            decreases self.players@.len() - i,
        {
            if self.players[i].id == *id {
                return Some(i);
            }
            i = i + 1;
        }
        None
    }

    /// How many seated players have not folded.
    pub fn live_players(&self) -> (n: usize)
        ensures
            n as int == count_unfolded(self.players@),
    {
        let mut n: usize = 0;
        let mut i: usize = 0;
        while i < self.players.len()
            invariant
                i <= self.players@.len(),
                n <= i,
                n as int == count_unfolded(self.players@.take(i as int)),
            decreases self.players@.len() - i,
        {
            proof {
                assert(self.players@.take(i as int + 1).drop_last() =~= self.players@.take(
                    i as int,
                ));
                assert(self.players@.take(i as int + 1).last() == self.players@[i as int]);
            }
            if !self.players[i].folded {
                n = n + 1;
            }
            i = i + 1;
        }
        proof {
            assert(self.players@.take(self.players@.len() as int) =~= self.players@);
        }
        n
    }

    /// Whether every player still in the hand has matched the current bet.
    fn bets_settled(&self) -> (b: bool)
        ensures
            b == forall|i: int|
                0 <= i < self.players@.len() && !(#[trigger] self.players@[i]).folded
                    ==> self.players@[i].bet == self.current_bet,
    {
        let mut i: usize = 0;
        while i < self.players.len()
            invariant
                i <= self.players@.len(),
                forall|j: int|
                    0 <= j < i && !(#[trigger] self.players@[j]).folded ==> self.players@[j].bet
                        == self.current_bet,
            decreases self.players@.len() - i,
        {
            if !self.players[i].folded && self.players[i].bet != self.current_bet {
                return false;
            }
            i = i + 1;
        }
        true
    }

    /// Some seat that has not folded; with one live player, the live one.
    fn find_unfolded(&self) -> (w: usize)
        requires
            count_unfolded(self.players@) >= 1,
        ensures
            w < self.players@.len(),
            !self.players@[w as int].folded,
    {
        let mut i: usize = 0;
        while i < self.players.len()
            invariant
                i <= self.players@.len(),
                forall|j: int| 0 <= j < i ==> (#[trigger] self.players@[j]).folded,
            decreases self.players@.len() - i,
        {
            if !self.players[i].folded {
                return i;
            }
            i = i + 1;
        }
        proof {
            lemma_count_unfolded_zero(self.players@);
            assert(false);
        }
        0
    }

    /// The next seat after `start`, cyclically, that has not folded: turn
    /// advancement passes over folded seats.
    pub fn next_unfolded_from(&self, start: usize) -> (r: usize)
        requires
            start < self.players@.len(),
            count_unfolded(self.players@) >= 1,
        ensures
            first_unfolded_after(self.players@, start as int, r as int),
    {
        let n = self.players.len();
        let mut j: usize = start + 1;
        while j < n
            invariant
                n == self.players@.len(),
                start < j <= self.players@.len(),
                forall|l: int| start < l < j ==> (#[trigger] self.players@[l]).folded,
            decreases self.players@.len() - j,
        {
            if !self.players[j].folded {
                return j;
            }
            j = j + 1;
        }
        let mut k: usize = 0;
        while k <= start
            invariant
                k <= start + 1,
                start < self.players@.len(),
                self.players@.len() <= usize::MAX,
                forall|l: int| start < l < self.players@.len() ==> (#[trigger] self.players@[l]).folded,
                forall|l: int| 0 <= l < k ==> (#[trigger] self.players@[l]).folded,
            decreases start + 1 - k,
        {
            if !self.players[k].folded {
                return k;
            }
            k = k + 1;
        }
        proof {
            lemma_count_unfolded_zero(self.players@);
            assert(false);
        }
        0
    }

    /// Seat a new player with the starting stack, when the table can take
    /// one: between hands, with a free seat, a fresh id, and room under the
    /// table's chip ceiling. The new player is welcomed and everyone gets
    /// the new snapshot; a join the table cannot take is answered with an
    /// error to the requester alone and changes nothing.
    pub fn add_player(&mut self, id: String, name: String) -> (out: Vec<Outbound>)
        requires
            old(self).wf(),
        ensures
            final(self).wf(),
            join_outcome(*old(self), *final(self), id@, name@, out@),
    {
        let can_join: bool = if !(self.phase == GamePhase::Waiting) {
            false
        } else if self.players.len() >= MAX_SEATS {
            false
        } else if self.find_player(&id).is_some() {
            false
        } else {
            // room under the chip ceiling: tally the table's funds
            let mut total: u64 = self.pot;
            let mut i: usize = 0;
            proof {
                assert(self.players@.take(0) =~= Seq::<Player>::empty());
            }
            while i < self.players.len()
                invariant
                    i <= self.players@.len(),
                    total as int == self.pot + sum_chips(self.players@.take(i as int)),
                    self.pot + sum_chips(self.players@) <= FUND_LIMIT,
                decreases self.players@.len() - i,
            {
                proof {
                    assert(self.players@.take(i as int + 1).drop_last() =~= self.players@.take(
                        i as int,
                    ));
                    assert(self.players@.take(i as int + 1).last() == self.players@[i as int]);
                    lemma_sum_chips_take(self.players@, i as int + 1);
                }
                total = total + self.players[i].chips;
                i = i + 1;
            }
            proof {
                assert(self.players@.take(self.players@.len() as int) =~= self.players@);
            }
            total + STARTING_CHIPS <= FUND_LIMIT
        };
        if !can_join {
            let msg = ServerMessage::Error { message: String::from_str("Cannot join now") };
            let mut out: Vec<Outbound> = Vec::new();
            out.push(Outbound::Unicast(id, msg));
            return out;
        }
        let welcome = ServerMessage::Welcome { player_id: id.clone(), chips: STARTING_CHIPS };
        let mut out: Vec<Outbound> = Vec::new();
        out.push(Outbound::Unicast(id.clone(), welcome));
        out.push(Outbound::BroadcastState);
        let p = Player::new(id, name, STARTING_CHIPS);
        proof {
            lemma_sums_push(self.players@, p);
        }
        self.players.push(p);
        out
    }

    /// Start a hand: shuffle a fresh deck, give every player two private
    /// cards, post the small and big blinds from the two seats after the
    /// dealer, and open the pre-flop street with the small blind to act.
    /// Each player's cards go to that player alone, then everyone gets the
    /// snapshot. A request between hands with fewer than two players, during
    /// a hand, or when a blind cannot be paid, changes nothing.
    pub fn start_game(&mut self) -> (out: Vec<Outbound>)
        requires
            old(self).wf(),
        ensures
            final(self).wf(),
            start_outcome(*old(self), *final(self), out@),
    {
        let ghost ps = self.players@;
        let n = self.players.len();
        if !(self.phase == GamePhase::Waiting) || n < 2 {
            return Vec::new();
        }
        let sb: usize = if self.dealer_idx + 1 >= n {
            self.dealer_idx + 1 - n
        } else {
            self.dealer_idx + 1
        };
        let bb: usize = if sb + 1 >= n {
            sb + 1 - n
        } else {
            sb + 1
        };
        if self.players[sb].chips < SMALL_BLIND || self.players[bb].chips < BIG_BLIND {
            return Vec::new();
        }
        let mut deck = Deck::new();
        let ghost fresh = deck.cards@;
        deck.shuffle();
        proof {
            lemma_no_duplicates_from_multiset(fresh, deck.cards@);
        }
        // two private cards to every seat, in seating order
        let ghost mut dealt: Seq<Card> = Seq::empty();
        let mut k: usize = 0;
        while k < n
            invariant
                n == self.players@.len(),
                2 <= n <= MAX_SEATS,
                k <= n,
                ps.len() == n,
                self.pot == old(self).pot,
                self.current_bet == old(self).current_bet,
                self.phase == old(self).phase,
                self.community_cards@ == old(self).community_cards@,
                self.current_player_idx == old(self).current_player_idx,
                self.dealer_idx == old(self).dealer_idx,
                deck.cards@.no_duplicates(),
                deck.cards@.len() == 52 - 2 * k,
                dealt.len() == 2 * k,
                dealt.no_duplicates(),
                forall|c: Card| dealt.contains(c) ==> !deck.cards@.contains(c),
                forall|i: int|
                    k <= i < n ==> #[trigger] self.players@[i] == ps[i],
                forall|i: int|
                    0 <= i < k ==> {
                        let q = #[trigger] self.players@[i];
                        &&& q.id@ == ps[i].id@
                        &&& q.name@ == ps[i].name@
                        &&& q.is_active == ps[i].is_active
                        &&& !q.folded
                        &&& q.bet == 0
                        &&& q.chips == ps[i].chips
                        &&& q.hand@ == dealt.subrange(2 * i, 2 * i + 2)
                    },
            decreases n - k,
        {
            let ghost deck0 = deck.cards@;
            let c1 = deck.deal_sure();
            let ghost deck1 = deck.cards@;
            let c2 = deck.deal_sure();
            proof {
                // the two cards are fresh: a no-duplicates deck never hands
                // out a card it still holds or one it already gave
                assert(deck1 == deck0.drop_last());
                assert(forall|j: int| 0 <= j < deck1.len() ==> deck1[j] == deck0[j]);
                assert(!deck1.contains(c1));
                assert(!deck.cards@.contains(c2));
                assert(forall|j: int| 0 <= j < deck.cards@.len() ==> deck.cards@[j] == deck1[j]);
                assert(!deck.cards@.contains(c1));
                assert(c1 != c2) by {
                    assert(deck1[deck1.len() - 1] == c2);
                }
                assert(!dealt.contains(c1));
                assert(!dealt.contains(c2));
            }
            let hand: Vec<Card> = vec![c1, c2];
            let prev = &self.players[k];
            let np = Player {
                id: prev.id.clone(),
                name: prev.name.clone(),
                chips: prev.chips,
                hand,
                bet: 0,
                folded: false,
                is_active: prev.is_active,
            };
            let ghost before = self.players@;
            self.players.set(k, np);
            proof {
                let d2 = dealt.push(c1).push(c2);
                assert(d2.subrange(2 * k as int, 2 * k as int + 2) =~= seq![c1, c2]);
                assert(np.hand@ =~= seq![c1, c2]);
                assert forall|i: int| 0 <= i < k implies (#[trigger] self.players@[i]).hand@ == d2.subrange(
                    2 * i,
                    2 * i + 2,
                ) by {
                    assert(self.players@[i] == before[i]);
                    assert(before[i].hand@ == dealt.subrange(2 * i, 2 * i + 2));
                    assert(d2.subrange(2 * i, 2 * i + 2) =~= dealt.subrange(2 * i, 2 * i + 2));
                }
                assert(d2.no_duplicates());
                assert forall|c: Card| d2.contains(c) implies !deck.cards@.contains(c) by {
                    if c != c1 && c != c2 {
                        let ix = choose|ix: int| 0 <= ix < d2.len() && d2[ix] == c;
                        assert(dealt[ix] == c);
                        assert(dealt.contains(c));
                        assert(!deck0.contains(c));
                        if deck.cards@.contains(c) {
                            let jx = choose|jx: int|
                                0 <= jx < deck.cards@.len() && deck.cards@[jx] == c;
                            assert(deck0[jx] == c);
                        }
                    }
                }
                dealt = d2;
            }
            k = k + 1;
        }
        // blinds
        let ghost after_deal = self.players@;
        let psb = &self.players[sb];
        let nsb = Player {
            id: psb.id.clone(),
            name: psb.name.clone(),
            chips: psb.chips - SMALL_BLIND,
            hand: clone_cards(&psb.hand),
            bet: SMALL_BLIND,
            folded: false,
            is_active: psb.is_active,
        };
        self.players.set(sb, nsb);
        let pbb = &self.players[bb];
        let nbb = Player {
            id: pbb.id.clone(),
            name: pbb.name.clone(),
            chips: pbb.chips - BIG_BLIND,
            hand: clone_cards(&pbb.hand),
            bet: BIG_BLIND,
            folded: false,
            is_active: pbb.is_active,
        };
        self.players.set(bb, nbb);
        self.community_cards.clear();
        self.pot = SMALL_BLIND + BIG_BLIND;
        self.current_bet = BIG_BLIND;
        self.phase = GamePhase::PreFlop;
        self.current_player_idx = sb;
        proof {
            lemma_sums_pointwise(ps);
            lemma_sums_pointwise_eq(after_deal, ps);
            lemma_sums_update(after_deal, sb as int, nsb);
            lemma_sums_update(after_deal.update(sb as int, nsb), bb as int, nbb);
            assert(self.players@ == after_deal.update(sb as int, nsb).update(bb as int, nbb));
            lemma_sums_pointwise(self.players@);
            // the dealt hole cards are pairwise distinct
            lemma_hole_cards_chunks(after_deal, dealt, n as int);
            lemma_hole_cards_upto_agree(self.players@, after_deal, n as int);
            assert(dealt.take(2 * n as int) =~= dealt);
            assert(hole_cards(self.players@).no_duplicates());
        }
        // tell each player their cards, then everyone the new table
        let mut out: Vec<Outbound> = Vec::new();
        let mut i: usize = 0;
        while i < n
            invariant
                n == self.players@.len(),
                i <= n,
                ps.len() == n,
                out@.len() == i,
                forall|j: int| 0 <= j < n ==> (#[trigger] self.players@[j]).id@ == ps[j].id@,
                forall|j: int|
                    0 <= j < i ==> (#[trigger] out@[j] matches Outbound::Unicast(
                        pid,
                        ServerMessage::DealCards { cards },
                    ) && pid@ == ps[j].id@ && cards@ == self.players@[j].hand@),
            decreases n - i,
        {
            let pid = self.players[i].id.clone();
            let cards = clone_cards(&self.players[i].hand);
            out.push(Outbound::Unicast(pid, ServerMessage::DealCards { cards }));
            i = i + 1;
        }
        out.push(Outbound::BroadcastState);
        out
    }

    /// Conclude the hand: hand the pot to the named player (if seated),
    /// announce the result to everyone, prune seats whose connection is
    /// gone, reset every hand-scoped field, advance the dealer button and
    /// return the table to `Waiting`.
    pub fn end_game(&mut self, winner_id: &String, amount: u64) -> (out: Vec<Outbound>)
        requires
            1 <= old(self).players@.len() <= MAX_SEATS,
            old(self).dealer_idx < old(self).players@.len(),
            amount == old(self).pot,
            old(self).pot + sum_chips(old(self).players@) <= FUND_LIMIT,
            forall|i: int, j: int|
                0 <= i < j < old(self).players@.len() ==> (#[trigger] old(self).players@[i]).id@
                    != (#[trigger] old(self).players@[j]).id@,
        ensures
            final(self).wf(),
            final(self).phase == GamePhase::Waiting,
            final(self).pot == 0,
            final(self).current_bet == 0,
            final(self).current_player_idx == 0,
            final(self).community_cards@.len() == 0,
            final(self).dealer_idx == (if old(self).dealer_idx + 1 >= final(self).players@.len() {
                0int
            } else {
                old(self).dealer_idx + 1
            }),
            out@.len() == 1,
            (out@[0] matches Outbound::Broadcast(ServerMessage::GameOver { winner_id: w, amount: a })
                && w@ == winner_id@ && a == amount),
            // the kept seats are the active ones, in order, after the award
            ({
                let ps = old(self).players@;
                forall|j: int|
                    0 <= j < ps.len() && (#[trigger] ps[j]).id@ == winner_id@ ==> seats_match(
                        final(self).players@,
                        active_only(ps.update(j, spec_award(ps[j], amount))),
                    )
            }),
            (forall|j: int|
                0 <= j < old(self).players@.len() ==> (#[trigger] old(self).players@[j]).id@
                    != winner_id@) ==> seats_match(
                final(self).players@,
                active_only(old(self).players@),
            ),
            // chips only move from the pot to the winner; pruning can only
            // drop chips from the table
            sum_chips(final(self).players@) <= sum_chips(old(self).players@) + amount,
            // a connected winner keeps their seat and receives the pot
            forall|j: int|
                0 <= j < old(self).players@.len() && (#[trigger] old(self).players@[j]).id@
                    == winner_id@ && old(self).players@[j].is_active ==> exists|k: int|
                    0 <= k < final(self).players@.len() && (#[trigger] final(self).players@[k]).id@
                        == winner_id@ && final(self).players@[k].chips == old(self).players@[j].chips
                        + amount,
    {
        let ghost ps = self.players@;
        // award the pot
        let widx = self.find_player(winner_id);
        if let Some(w) = widx {
            proof {
                lemma_sums_elem(ps, w as int);
            }
            let pw = &self.players[w];
            let nw = Player {
                id: pw.id.clone(),
                name: pw.name.clone(),
                chips: pw.chips + amount,
                hand: clone_cards(&pw.hand),
                bet: pw.bet,
                folded: pw.folded,
                is_active: pw.is_active,
            };
            self.players.set(w, nw);
            proof {
                lemma_sums_update(ps, w as int, nw);
            }
        }
        let ghost aw = self.players@;
        // prune seats whose connection is gone; reset the others
        let mut kept: Vec<Player> = Vec::new();
        let mut i: usize = 0;
        proof {
            assert(active_only(aw.take(0)) =~= Seq::<Player>::empty());
        }
        while i < self.players.len()
            invariant
                i <= aw.len(),
                aw == self.players@,
                seats_match(kept@, active_only(aw.take(i as int))),
            decreases aw.len() - i,
        {
            proof {
                assert(aw.take(i as int + 1).drop_last() =~= aw.take(i as int));
                assert(aw.take(i as int + 1).last() == aw[i as int]);
            }
            if self.players[i].is_active {
                let pi = &self.players[i];
                let np = Player {
                    id: pi.id.clone(),
                    name: pi.name.clone(),
                    chips: pi.chips,
                    hand: Vec::new(),
                    bet: 0,
                    folded: false,
                    is_active: true,
                };
                kept.push(np);
                proof {
                    assert(active_only(aw.take(i as int + 1)) =~= active_only(aw.take(i as int)).push(
                        aw[i as int],
                    ));
                }
            } else {
                proof {
                    assert(active_only(aw.take(i as int + 1)) =~= active_only(aw.take(i as int)));
                }
            }
            i = i + 1;
        }
        proof {
            assert(aw.take(aw.len() as int) =~= aw);
        }
        let n2 = kept.len();
        self.players = kept;
        self.community_cards.clear();
        self.pot = 0;
        self.current_bet = 0;
        self.phase = GamePhase::Waiting;
        self.current_player_idx = 0;
        self.dealer_idx = if self.dealer_idx + 1 >= n2 {
            0
        } else {
            self.dealer_idx + 1
        };
        let mut out: Vec<Outbound> = Vec::new();
        out.push(
            Outbound::Broadcast(
                ServerMessage::GameOver { winner_id: winner_id.clone(), amount },
            ),
        );
        proof {
            // the seats kept pointwise carry the old identities and stacks
            assert forall|i: int| 0 <= i < aw.len() implies seat_like(#[trigger] aw[i], ps[i]) || (
            widx matches Some(w) && i == w as int) by {}
            assert forall|i: int, j: int|
                0 <= i < j < aw.len() implies (#[trigger] aw[i]).id@ != (#[trigger] aw[j]).id@ by {
                assert(aw[i].id@ == ps[i].id@);
                assert(aw[j].id@ == ps[j].id@);
            }
            lemma_active_only(aw);
            lemma_active_only_unique_ids(aw);
            let ao = active_only(aw);
            lemma_sum_chips_pointwise(self.players@, ao);
            lemma_sums_pointwise(self.players@);
            match widx {
                Some(w) => {
                    lemma_sums_update(ps, w as int, aw[w as int]);
                    assert forall|j: int|
                        0 <= j < ps.len() && (#[trigger] ps[j]).id@ == winner_id@ implies seats_match(
                        self.players@,
                        active_only(ps.update(j, spec_award(ps[j], amount))),
                    ) by {
                        assert(ps[j].id@ == ps[w as int].id@);
                        assert(j == w as int);
                        let tgt = ps.update(j, spec_award(ps[j], amount));
                        assert forall|i: int| 0 <= i < aw.len() implies seat_like(
                            #[trigger] aw[i],
                            tgt[i],
                        ) by {}
                        lemma_active_only_like(aw, tgt);
                    }
                    assert forall|j: int|
                        0 <= j < ps.len() && (#[trigger] ps[j]).id@ == winner_id@
                            && ps[j].is_active implies exists|k: int|
                        0 <= k < self.players@.len() && (#[trigger] self.players@[k]).id@
                            == winner_id@ && self.players@[k].chips == ps[j].chips + amount by {
                        assert(j == w as int);
                        assert(aw[j].is_active);
                        lemma_active_only_member(aw, j);
                        let k = choose|k: int|
                            0 <= k < active_only(aw).len() && #[trigger] active_only(aw)[k] == aw[j];
                        assert(seat_like(self.players@[k], active_only(aw)[k]));
                        assert(self.players@[k].id@ == winner_id@ && self.players@[k].chips == ps[j].chips + amount);
                    }
                },
                None => {
                    assert(aw == ps);
                    assert forall|j: int|
                        0 <= j < ps.len() && (#[trigger] ps[j]).id@ == winner_id@ implies seats_match(
                        self.players@,
                        active_only(ps.update(j, spec_award(ps[j], amount))),
                    ) by {
                        assert(ps[j].id@ != winner_id@);
                    }
                },
            }
        }
        out
    }

    /// Compare every remaining player's best seven-card hand and give the
    /// whole pot to a player no contender beats, then conclude the hand.
    pub fn showdown(&mut self) -> (out: Vec<Outbound>)
        requires
            old(self).phase == GamePhase::Showdown,
            1 <= old(self).players@.len() <= MAX_SEATS,
            old(self).dealer_idx < old(self).players@.len(),
            old(self).community_cards@.len() == 5,
            forall|i: int|
                0 <= i < old(self).players@.len() ==> (#[trigger] old(self).players@[i]).hand@.len()
                    == 2,
            count_unfolded(old(self).players@) >= 1,
            old(self).pot + sum_chips(old(self).players@) <= FUND_LIMIT,
            forall|i: int, j: int|
                0 <= i < j < old(self).players@.len() ==> (#[trigger] old(self).players@[i]).id@
                    != (#[trigger] old(self).players@[j]).id@,
        ensures
            final(self).wf(),
            final(self).phase == GamePhase::Waiting,
            final(self).pot == 0,
            sum_chips(final(self).players@) <= sum_chips(old(self).players@) + old(self).pot,
            exists|w: int|
                {
                    &&& #[trigger] best_at_showdown(
                        old(self).players@,
                        old(self).community_cards@,
                        w,
                    )
                    &&& seats_match(
                        final(self).players@,
                        active_only(
                            old(self).players@.update(
                                w,
                                spec_award(old(self).players@[w], old(self).pot),
                            ),
                        ),
                    )
                    &&& (old(self).players@[w].is_active ==> exists|k: int|
                        0 <= k < final(self).players@.len()
                            && (#[trigger] final(self).players@[k]).id@ == old(self).players@[w].id@
                            && final(self).players@[k].chips == old(self).players@[w].chips + old(
                            self,
                        ).pot)
                    &&& out@.len() == 1
                    &&& (out@[0] matches Outbound::Broadcast(ServerMessage::GameOver {
                        winner_id,
                        amount,
                    }) && winner_id@ == old(self).players@[w].id@ && amount == old(self).pot)
                },
    {
        let ghost ps = self.players@;
        let ghost comm = self.community_cards@;
        let n = self.players.len();
        let mut best_idx: usize = 0;
        let mut best_val = HandValue { rank: HandRank::HighCard, values: vec![0u8] };
        let ghost mut found: bool = false;
        let ghost mut gsw: Seq<Card> = Seq::empty();
        let mut i: usize = 0;
        while i < n
            invariant
                *self == *old(self),
                ps == self.players@,
                comm == self.community_cards@,
                n == ps.len(),
                comm.len() == 5,
                forall|p: int| 0 <= p < ps.len() ==> (#[trigger] ps[p]).hand@.len() == 2,
                i <= n,
                !found ==> best_val.rank == HandRank::HighCard && best_val.values@ == seq![0u8],
                !found ==> forall|p: int| 0 <= p < i ==> (#[trigger] ps[p]).folded,
                found ==> best_idx < n && !ps[best_idx as int].folded && (exists|
                    a: int,
                    b: int,
                    c: int,
                    d: int,
                    e: int,
                |
                    #![trigger pick5(seven_cards(ps, comm, best_idx as int), a, b, c, d, e)]
                    idx5_ok(7, a, b, c, d, e) && gsw == pick5(
                        seven_cards(ps, comm, best_idx as int),
                        a,
                        b,
                        c,
                        d,
                        e,
                    )) && best_val.rank == category(gsw) && best_val.values@ == tiebreak(gsw),
                forall|p: int, a: int, b: int, c: int, d: int, e: int|
                    #![trigger pick5(seven_cards(ps, comm, p), a, b, c, d, e)]
                    0 <= p < i && !ps[p].folded && idx5_ok(7, a, b, c, d, e) ==> !hv_lt(
                        best_val.rank,
                        best_val.values@,
                        category(pick5(seven_cards(ps, comm, p), a, b, c, d, e)),
                        tiebreak(pick5(seven_cards(ps, comm, p), a, b, c, d, e)),
                    ),
            decreases n - i,
        {
            if !self.players[i].folded {
                let mut cs = clone_cards(&self.players[i].hand);
                let mut cc = clone_cards(&self.community_cards);
                cs.append(&mut cc);
                proof {
                    assert(cs@ == seven_cards(ps, comm, i as int));
                    assert(cs@.len() == 7);
                }
                match find_best_hand(&cs) {
                    Ok((bh, bv)) => {
                        let ghost obr = best_val.rank;
                        let ghost obv = best_val.values@;
                        if hand_value_lt(&best_val, &bv) {
                            best_val = bv;
                            best_idx = i;
                            proof {
                                found = true;
                                gsw = bh@;
                                assert forall|p: int, a: int, b: int, c: int, d: int, e: int|
                                    0 <= p < i && !ps[p].folded && idx5_ok(
                                        7,
                                        a,
                                        b,
                                        c,
                                        d,
                                        e,
                                    ) implies !hv_lt(
                                    best_val.rank,
                                    best_val.values@,
                                    category(#[trigger] pick5(seven_cards(ps, comm, p), a, b, c, d, e)),
                                    tiebreak(pick5(seven_cards(ps, comm, p), a, b, c, d, e)),
                                ) by {
                                    lemma_best_improves(
                                        best_val.rank,
                                        best_val.values@,
                                        obr,
                                        obv,
                                        category(pick5(seven_cards(ps, comm, p), a, b, c, d, e)),
                                        tiebreak(pick5(seven_cards(ps, comm, p), a, b, c, d, e)),
                                    );
                                }
                            }
                        } else {
                            proof {
                                if !found {
                                    let (xa, xb, xc, xd, xe) = choose|
                                        xa: int,
                                        xb: int,
                                        xc: int,
                                        xd: int,
                                        xe: int,
                                    |
                                        idx5_ok(cs@.len() as int, xa, xb, xc, xd, xe) && bh@
                                            == pick5(cs@, xa, xb, xc, xd, xe);
                                    assert(bh@.len() == 5);
                                    lemma_sentinel_lt(bh@);
                                    assert(false);
                                }
                                assert forall|a: int, b: int, c: int, d: int, e: int|
                                    idx5_ok(7, a, b, c, d, e) implies !hv_lt(
                                    best_val.rank,
                                    best_val.values@,
                                    category(#[trigger] pick5(seven_cards(ps, comm, i as int), a, b, c, d, e)),
                                    tiebreak(pick5(seven_cards(ps, comm, i as int), a, b, c, d, e)),
                                ) by {
                                    lemma_hv_not_lt_compose(
                                        best_val.rank,
                                        best_val.values@,
                                        bv.rank,
                                        bv.values@,
                                        category(pick5(seven_cards(ps, comm, i as int), a, b, c, d, e)),
                                        tiebreak(pick5(seven_cards(ps, comm, i as int), a, b, c, d, e)),
                                    );
                                }
                            }
                        }
                    },
                    Err(_) => {
                        proof {
                            assert(false);
                        }
                        return Vec::new();
                    },
                }
            }
            i = i + 1;
        }
        proof {
            if !found {
                lemma_count_unfolded_zero(ps);
                assert(false);
            }
            assert(best_at_showdown(ps, comm, best_idx as int));
        }
        let wid = self.players[best_idx].id.clone();
        let pot = self.pot;
        let out = self.end_game(&wid, pot);
        proof {
            assert forall|j: int| 0 <= j < ps.len() && (#[trigger] ps[j]).id@ == wid@ implies j
                == best_idx as int by {}
            assert(seats_match(
                self.players@,
                active_only(ps.update(best_idx as int, spec_award(ps[best_idx as int], pot))),
            ));
        }
        out
    }

    /// Whether some player holds this card or it lies on the board.
    fn card_in_play(&self, c: Card) -> (r: bool)
        ensures
            r == in_play(self.players@, self.community_cards@, c),
    {
        let mut i: usize = 0;
        while i < self.players.len()
            invariant
                i <= self.players@.len(),
                forall|p: int, a: int|
                    0 <= p < i && 0 <= a < self.players@[p].hand@.len()
                        ==> #[trigger] self.players@[p].hand@[a] != c,
            decreases self.players@.len() - i,
        {
            let mut a: usize = 0;
            while a < self.players[i].hand.len()
                invariant
                    i < self.players@.len(),
                    a <= self.players@[i as int].hand@.len(),
                    forall|x: int|
                        0 <= x < a ==> #[trigger] self.players@[i as int].hand@[x] != c,
                decreases self.players@[i as int].hand@.len() - a,
            {
                if self.players[i].hand[a] == c {
                    return true;
                }
                a = a + 1;
            }
            i = i + 1;
        }
        let mut j: usize = 0;
        while j < self.community_cards.len()
            invariant
                j <= self.community_cards@.len(),
                forall|x: int| 0 <= x < j ==> #[trigger] self.community_cards@[x] != c,
            decreases self.community_cards@.len() - j,
        {
            if self.community_cards[j] == c {
                return true;
            }
            j = j + 1;
        }
        false
    }

    /// Advance the street: reveal three community cards after the pre-flop,
    /// one after the flop and one after the turn, each drawn from a fresh
    /// shuffled deck with every card already in play set aside, reset the
    /// street's bets, and hand the turn to the first live seat after the
    /// dealer. After the river, hold the showdown instead.
    pub fn next_phase(&mut self) -> (out: Vec<Outbound>)
        requires
            old(self).wf(),
            is_betting(old(self).phase),
        ensures
            final(self).wf(),
            old(self).phase != GamePhase::River ==> {
                &&& final(self).phase == spec_next_phase(old(self).phase)
                &&& final(self).pot == old(self).pot
                &&& final(self).current_bet == 0
                &&& final(self).dealer_idx == old(self).dealer_idx
                &&& final(self).players@.len() == old(self).players@.len()
                &&& forall|i: int|
                    0 <= i < old(self).players@.len() ==> final(self).players@[i] == (Player {
                        bet: 0u64,
                        ..(#[trigger] old(self).players@[i])
                    })
                &&& final(self).community_cards@.len() == community_len_for(
                    spec_next_phase(old(self).phase),
                )
                &&& final(self).community_cards@.take(old(self).community_cards@.len() as int)
                    == old(self).community_cards@
                &&& forall|t: int|
                    old(self).community_cards@.len() <= t < final(self).community_cards@.len()
                        ==> !in_play(
                        old(self).players@,
                        old(self).community_cards@,
                        #[trigger] final(self).community_cards@[t],
                    )
                &&& forall|t1: int, t2: int|
                    old(self).community_cards@.len() <= t1 < t2
                        < final(self).community_cards@.len()
                        ==> (#[trigger] final(self).community_cards@[t1])
                        != (#[trigger] final(self).community_cards@[t2])
                &&& first_unfolded_after(
                    final(self).players@,
                    old(self).dealer_idx as int,
                    final(self).current_player_idx as int,
                )
                &&& out@.len() == 1
                &&& out@[0] is BroadcastState
            },
            old(self).phase == GamePhase::River ==> {
                &&& final(self).phase == GamePhase::Waiting
                &&& final(self).pot == 0
                &&& sum_chips(final(self).players@) <= sum_chips(old(self).players@) + old(
                    self,
                ).pot
                &&& exists|w: int|
                    {
                        &&& #[trigger] best_at_showdown(
                            old(self).players@,
                            old(self).community_cards@,
                            w,
                        )
                        &&& seats_match(
                            final(self).players@,
                            active_only(
                                old(self).players@.update(
                                    w,
                                    spec_award(old(self).players@[w], old(self).pot),
                                ),
                            ),
                        )
                        &&& (old(self).players@[w].is_active ==> exists|k: int|
                            0 <= k < final(self).players@.len()
                                && (#[trigger] final(self).players@[k]).id@
                                == old(self).players@[w].id@ && final(self).players@[k].chips
                                == old(self).players@[w].chips + old(self).pot)
                        &&& out@.len() == 1
                        &&& (out@[0] matches Outbound::Broadcast(ServerMessage::GameOver {
                            winner_id,
                            amount,
                        }) && winner_id@ == old(self).players@[w].id@ && amount == old(self).pot)
                    }
            },
    {
        let ghost ps = self.players@;
        let ghost comm0 = self.community_cards@;
        if self.phase == GamePhase::River {
            self.phase = GamePhase::Showdown;
            let out = self.showdown();
            return out;
        }
        let draw: usize = if self.phase == GamePhase::PreFlop {
            3
        } else {
            1
        };
        let mut deck = Deck::new();
        let ghost fresh = deck.cards@;
        deck.shuffle();
        proof {
            lemma_no_duplicates_from_multiset(fresh, deck.cards@);
        }
        // set aside every card already in play
        let mut rem: Vec<Card> = Vec::new();
        let ghost mut dropped: Seq<Card> = Seq::empty();
        let mut j: usize = 0;
        while j < deck.cards.len()
            invariant
                *self == *old(self),
                ps == self.players@,
                comm0 == self.community_cards@,
                deck.cards@.len() == 52,
                deck.cards@.no_duplicates(),
                j <= 52,
                rem@.len() + dropped.len() == j,
                rem@.no_duplicates(),
                dropped.no_duplicates(),
                forall|k: int| 0 <= k < rem@.len() ==> deck.cards@.take(j as int).contains(#[trigger] rem@[k]),
                forall|k: int| 0 <= k < dropped.len() ==> deck.cards@.take(j as int).contains(#[trigger] dropped[k]),
                forall|k: int| 0 <= k < rem@.len() ==> !in_play(ps, comm0, #[trigger] rem@[k]),
                forall|k: int| 0 <= k < dropped.len() ==> in_play(ps, comm0, #[trigger] dropped[k]),
            decreases 52 - j,
        {
            let c = deck.cards[j];
            proof {
                assert(deck.cards@.take(j as int + 1)[j as int] == c);
                assert forall|k: int|
                    0 <= k < rem@.len() implies deck.cards@.take(j as int + 1).contains(
                    #[trigger] rem@[k],
                ) by {
                    let ix = choose|ix: int|
                        0 <= ix < j && deck.cards@.take(j as int)[ix] == rem@[k];
                    assert(deck.cards@.take(j as int + 1)[ix] == rem@[k]);
                }
                assert forall|k: int|
                    0 <= k < dropped.len() implies deck.cards@.take(j as int + 1).contains(
                    #[trigger] dropped[k],
                ) by {
                    let ix = choose|ix: int|
                        0 <= ix < j && deck.cards@.take(j as int)[ix] == dropped[k];
                    assert(deck.cards@.take(j as int + 1)[ix] == dropped[k]);
                }
                // the scanned card is new: the deck has no duplicates
                assert forall|k: int| 0 <= k < rem@.len() implies #[trigger] rem@[k] != c by {
                    let ix = choose|ix: int|
                        0 <= ix < j && deck.cards@.take(j as int)[ix] == rem@[k];
                    assert(deck.cards@[ix] == rem@[k]);
                }
                assert forall|k: int| 0 <= k < dropped.len() implies #[trigger] dropped[k] != c by {
                    let ix = choose|ix: int|
                        0 <= ix < j && deck.cards@.take(j as int)[ix] == dropped[k];
                    assert(deck.cards@[ix] == dropped[k]);
                }
            }
            if self.card_in_play(c) {
                proof {
                    dropped = dropped.push(c);
                }
            } else {
                rem.push(c);
            }
            j = j + 1;
        }
        proof {
            lemma_in_play_bound(dropped, ps, comm0);
            assert(rem@.len() >= 52 - (2 * ps.len() + comm0.len()));
        }
        // reveal the street's community cards
        let mut drawn: Vec<Card> = Vec::new();
        let mut t2: usize = 0;
        while t2 < draw
            invariant
                draw <= 3,
                t2 <= draw,
                rem@.len() >= draw - t2,
                rem@.no_duplicates(),
                forall|k: int| 0 <= k < rem@.len() ==> !in_play(ps, comm0, #[trigger] rem@[k]),
                drawn@.len() == t2,
                drawn@.no_duplicates(),
                forall|k: int| 0 <= k < drawn@.len() ==> !in_play(ps, comm0, #[trigger] drawn@[k]),
                forall|k: int| 0 <= k < drawn@.len() ==> !rem@.contains(#[trigger] drawn@[k]),
            decreases draw - t2,
        {
            let ghost rem0 = rem@;
            let c = match rem.pop() {
                Some(c) => c,
                None => vstd::pervasive::unreached(),
            };
            proof {
                assert(!rem@.contains(c));
                assert(rem0.contains(c)) by {
                    assert(rem0[rem0.len() - 1] == c);
                }
                assert forall|k: int|
                    0 <= k < drawn@.len() implies !rem@.contains(#[trigger] drawn@[k]) by {
                    if rem@.contains(drawn@[k]) {
                        let ix = choose|ix: int| 0 <= ix < rem@.len() && rem@[ix] == drawn@[k];
                        assert(rem0[ix] == drawn@[k]);
                    }
                }
                assert(!drawn@.contains(c));
            }
            drawn.push(c);
            t2 = t2 + 1;
        }
        let ghost newcards = drawn@;
        let mut d2 = drawn;
        self.community_cards.append(&mut d2);
        // fresh street: everyone owes nothing and the seat after the dealer opens
        let mut i: usize = 0;
        while i < self.players.len()
            invariant
                self.players@.len() == ps.len(),
                i <= ps.len(),
                self.pot == old(self).pot,
                self.current_bet == old(self).current_bet,
                self.phase == old(self).phase,
                self.dealer_idx == old(self).dealer_idx,
                self.current_player_idx == old(self).current_player_idx,
                self.community_cards@ == comm0 + newcards,
                forall|l: int|
                    0 <= l < i ==> self.players@[l] == (Player { bet: 0u64, ..(#[trigger] ps[l]) }),
                forall|l: int| i <= l < ps.len() ==> #[trigger] self.players@[l] == ps[l],
            decreases ps.len() - i,
        {
            self.players[i].bet = 0;
            i = i + 1;
        }
        self.current_bet = 0;
        proof {
            assert forall|l: int| 0 <= l < ps.len() implies {
                let q = #[trigger] self.players@[l];
                &&& q.bet == 0
                &&& q.folded == ps[l].folded
                &&& q.hand == ps[l].hand
                &&& q.id == ps[l].id
                &&& q.name == ps[l].name
                &&& q.is_active == ps[l].is_active
                &&& q.chips == ps[l].chips
            } by {
                assert(self.players@[l] == (Player { bet: 0u64, ..ps[l] }));
            }
            lemma_count_unfolded_pointwise(self.players@, ps);
        }
        let nxt = self.next_unfolded_from(self.dealer_idx);
        self.current_player_idx = nxt;
        self.phase = if self.phase == GamePhase::PreFlop {
            GamePhase::Flop
        } else if self.phase == GamePhase::Flop {
            GamePhase::Turn
        } else {
            GamePhase::River
        };
        proof {
            lemma_sums_pointwise(self.players@);
            lemma_sum_chips_pointwise(self.players@, ps);
            assert((comm0 + newcards).take(comm0.len() as int) =~= comm0);
        }
        let mut out: Vec<Outbound> = Vec::new();
        out.push(Outbound::BroadcastState);
        out
    }

    /// One betting action from one player. A request from an unknown id is
    /// dropped; one out of turn, outside a hand, or that the rules or the
    /// player's stack refuse is answered with an error to its sender alone
    /// and changes nothing. A legal action is applied, announced to all,
    /// and the hand settles as `settled_after` states.
    pub fn handle_player_action(&mut self, player_id: &String, action: ClientMessage) -> (out: Vec<
        Outbound,
    >)
        requires
            old(self).wf(),
        ensures
            final(self).wf(),
            (forall|j: int|
                0 <= j < old(self).players@.len() ==> (#[trigger] old(self).players@[j]).id@
                    != player_id@) ==> *final(self) == *old(self) && out@.len() == 0,
            forall|j: int|
                0 <= j < old(self).players@.len() && (#[trigger] old(self).players@[j]).id@
                    == player_id@ ==> handled_action(
                    *old(self),
                    *final(self),
                    j,
                    action,
                    player_id@,
                    out@,
                ),
    {
        let ghost pre = *self;
        let ghost ps = self.players@;
        let idx = match self.find_player(player_id) {
            Some(i) => i,
            None => {
                return Vec::new();
            },
        };
        proof {
            assert forall|j: int|
                0 <= j < ps.len() && (#[trigger] ps[j]).id@ == player_id@ implies j
                == idx as int by {}
        }
        let betting = self.phase == GamePhase::PreFlop || self.phase == GamePhase::Flop
            || self.phase == GamePhase::Turn || self.phase == GamePhase::River;
        if !betting {
            return reject(player_id, "No hand in progress");
        }
        if idx != self.current_player_idx {
            return reject(player_id, "Not your turn");
        }
        proof {
            lemma_sums_elem(ps, idx as int);
        }
        let cb = self.current_bet;
        let delta: u64 = match &action {
            ClientMessage::Fold => {
                self.players[idx].folded = true;
                0
            },
            ClientMessage::Check => {
                if self.players[idx].bet < cb {
                    return reject(player_id, "Cannot check");
                }
                0
            },
            ClientMessage::Call => {
                let d = cb - self.players[idx].bet;
                if d > self.players[idx].chips {
                    return reject(player_id, "Not enough chips");
                }
                let c0 = self.players[idx].chips;
                self.players[idx].chips = c0 - d;
                self.players[idx].bet = cb;
                d
            },
            ClientMessage::Raise { amount } => {
                let am = *amount;
                if am > self.players[idx].chips {
                    return reject(player_id, "Not enough chips");
                }
                let tgt = cb + am;
                let d = tgt - self.players[idx].bet;
                if d > self.players[idx].chips {
                    return reject(player_id, "Not enough chips");
                }
                let c0 = self.players[idx].chips;
                self.players[idx].chips = c0 - d;
                self.players[idx].bet = tgt;
                self.current_bet = tgt;
                d
            },
            _ => {
                return Vec::new();
            },
        };
        self.pot = self.pot + delta;
        let ghost mps = ps.update(idx as int, mid_player(ps[idx as int], action, cb));
        let ghost mpot = (pre.pot + mid_pot_delta(ps[idx as int], action, cb)) as u64;
        let ghost mcb = mid_cb(action, cb);
        proof {
            assert(self.players@ =~= mps);
            assert(self.pot == mpot);
            assert(self.current_bet == mcb);
            lemma_sums_update(ps, idx as int, mps[idx as int]);
            lemma_sums_elem(mps, idx as int);
        }
        let desc = describe_action(&action);
        let mut out: Vec<Outbound> = Vec::new();
        out.push(
            Outbound::Broadcast(
                ServerMessage::PlayerAction { player_id: player_id.clone(), action: desc },
            ),
        );
        // pass the turn over any folded seats
        let nxt = self.next_unfolded_from(self.current_player_idx);
        self.current_player_idx = nxt;
        proof {
            // the mid-table is well-formed but for possibly one live player
            assert(self.wf_with(1)) by {
                assert forall|l: int| 0 <= l < mps.len() implies (#[trigger] mps[l]).bet
                    <= mcb by {}
            }
        }
        let live = self.live_players();
        if live == 1 {
            // the hand ends by attrition: the one live player takes the pot
            let w = self.find_unfolded();
            let wid = self.players[w].id.clone();
            let pot_now = self.pot;
            let mut rest = self.end_game(&wid, pot_now);
            out.append(&mut rest);
            proof {
                assert forall|w2: int|
                    0 <= w2 < mps.len() && !(#[trigger] mps[w2]).folded implies exists|k: int|
                    0 <= k < self.players@.len() && (#[trigger] self.players@[k]).id@
                        == mps[w2].id@ && self.players@[k].chips == mps[w2].chips + mpot by {
                    if w2 != w as int {
                        lemma_count_unfolded_two(
                            mps,
                            if w2 < w as int { w2 } else { w as int },
                            if w2 < w as int { w as int } else { w2 },
                        );
                    }
                    assert(w2 == w as int);
                    assert(mps[w2].is_active);
                }
            }
            return out;
        }
        if self.bets_settled() {
            // every live player has matched the bet: the street is over
            let mut rest = self.next_phase();
            out.append(&mut rest);
            return out;
        }
        out.push(Outbound::BroadcastState);
        out
    }

    /// Take a player out when their connection ends. Between hands the seat
    /// is removed outright. Mid-hand the seat stays until the hand ends: it
    /// is folded and marked disconnected, and the hand settles as after a
    /// fold, so no live seat ever loses its turn to a ghost.
    pub fn remove_player(&mut self, id: &String) -> (out: Vec<Outbound>)
        requires
            old(self).wf(),
        ensures
            final(self).wf(),
            (forall|j: int|
                0 <= j < old(self).players@.len() ==> (#[trigger] old(self).players@[j]).id@
                    != id@) ==> *final(self) == *old(self) && out@.len() == 0,
            forall|j: int|
                0 <= j < old(self).players@.len() && (#[trigger] old(self).players@[j]).id@ == id@
                    ==> {
                    let ps = old(self).players@;
                    if old(self).phase == GamePhase::Waiting {
                        &&& final(self).players@ == ps.remove(j)
                        &&& final(self).phase == GamePhase::Waiting
                        &&& final(self).pot == old(self).pot
                        &&& out@.len() == 0
                    } else if ps[j].folded {
                        &&& final(self).players@ == ps.update(
                            j,
                            Player { is_active: false, ..ps[j] },
                        )
                        &&& final(self).pot == old(self).pot
                        &&& final(self).current_bet == old(self).current_bet
                        &&& final(self).phase == old(self).phase
                        &&& final(self).current_player_idx == old(self).current_player_idx
                        &&& out@.len() == 0
                    } else {
                        removal_settled(
                            *old(self),
                            *final(self),
                            ps.update(j, Player { folded: true, is_active: false, ..ps[j] }),
                            j,
                            out@,
                        )
                    }
                },
    {
        let ghost ps = self.players@;
        let idx = match self.find_player(id) {
            Some(i) => i,
            None => {
                return Vec::new();
            },
        };
        proof {
            assert forall|j: int|
                0 <= j < ps.len() && (#[trigger] ps[j]).id@ == id@ implies j == idx as int by {}
        }
        if self.phase == GamePhase::Waiting {
            self.players.remove(idx);
            if self.players.len() == 0 {
                self.dealer_idx = 0;
            } else if self.dealer_idx >= self.players.len() {
                self.dealer_idx = 0;
            }
            proof {
                lemma_sums_remove(ps, idx as int);
            }
            return Vec::new();
        }
        if self.players[idx].folded {
            self.players[idx].is_active = false;
            proof {
                assert(self.players@ =~= ps.update(
                    idx as int,
                    Player { is_active: false, ..ps[idx as int] },
                ));
                lemma_sums_update(ps, idx as int, self.players@[idx as int]);
            }
            return Vec::new();
        }
        self.players[idx].folded = true;
        self.players[idx].is_active = false;
        let ghost mps = ps.update(
            idx as int,
            Player { folded: true, is_active: false, ..ps[idx as int] },
        );
        proof {
            assert(self.players@ =~= mps);
            lemma_sums_update(ps, idx as int, mps[idx as int]);
        }
        if idx == self.current_player_idx {
            let nxt = self.next_unfolded_from(self.current_player_idx);
            self.current_player_idx = nxt;
        }
        proof {
            assert(self.wf_with(1));
        }
        let mut out: Vec<Outbound> = Vec::new();
        let live = self.live_players();
        if live == 1 {
            let w = self.find_unfolded();
            let wid = self.players[w].id.clone();
            let pot_now = self.pot;
            let mut rest = self.end_game(&wid, pot_now);
            out.append(&mut rest);
            proof {
                assert forall|w2: int|
                    0 <= w2 < mps.len() && !(#[trigger] mps[w2]).folded implies exists|k: int|
                    0 <= k < self.players@.len() && (#[trigger] self.players@[k]).id@
                        == mps[w2].id@ && self.players@[k].chips == mps[w2].chips + old(self).pot by {
                    if w2 != w as int {
                        lemma_count_unfolded_two(
                            mps,
                            if w2 < w as int { w2 } else { w as int },
                            if w2 < w as int { w as int } else { w2 },
                        );
                    }
                    assert(w2 == w as int);
                    assert(mps[w2].is_active);
                }
            }
            return out;
        }
        if self.bets_settled() {
            let mut rest = self.next_phase();
            out.append(&mut rest);
            return out;
        }
        out.push(Outbound::BroadcastState);
        out
    }

    /// One decoded request from one connection: a join seats the player, a
    /// start request opens a hand, and the betting actions go to the
    /// betting rules. The caller delivers the returned notices.
    pub fn handle_message(&mut self, player_id: &String, msg: ClientMessage) -> (out: Vec<Outbound>)
        requires
            old(self).wf(),
        ensures
            final(self).wf(),
            (msg matches ClientMessage::Join { name } ==> join_outcome(
                *old(self),
                *final(self),
                player_id@,
                name@,
                out@,
            )),
            msg is Ready ==> start_outcome(*old(self), *final(self), out@),
            is_action(msg) ==> {
                &&& (forall|j: int|
                    0 <= j < old(self).players@.len() ==> (#[trigger] old(self).players@[j]).id@
                        != player_id@) ==> *final(self) == *old(self) && out@.len() == 0
                &&& forall|j: int|
                    0 <= j < old(self).players@.len() && (#[trigger] old(self).players@[j]).id@
                        == player_id@ ==> handled_action(
                        *old(self),
                        *final(self),
                        j,
                        msg,
                        player_id@,
                        out@,
                    )
            },
    {
        match msg {
            ClientMessage::Join { name } => self.add_player(player_id.clone(), name),
            ClientMessage::Ready => self.start_game(),
            other => self.handle_player_action(player_id, other),
        }
    }
}

} // verus!
