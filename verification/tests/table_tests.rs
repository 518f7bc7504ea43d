use holdem::game::{GamePhase, GameState};
use holdem::protocol::{ClientMessage, Outbound, ServerMessage, u64_to_string};

fn join(state: &mut GameState, id: &str, name: &str) -> Vec<Outbound> {
    let pid = String::from(id);
    state.handle_message(&pid, ClientMessage::Join { name: String::from(name) })
}

fn act(state: &mut GameState, id: &str, msg: ClientMessage) -> Vec<Outbound> {
    let pid = String::from(id);
    state.handle_message(&pid, msg)
}

/// The pot must always equal the street's opening pot plus every bet.
fn assert_pot_covers_bets(state: &GameState, street_base: u64) {
    let bets: u64 = state.players.iter().map(|p| p.bet).sum();
    assert_eq!(state.pot, street_base + bets);
}

fn three_seated() -> GameState {
    let mut state = GameState::new();
    join(&mut state, "a", "Alice");
    join(&mut state, "b", "Bob");
    join(&mut state, "c", "Carol");
    state
}

#[test]
fn fresh_table_is_empty_and_waiting() {
    let state = GameState::new();
    assert_eq!(state.players.len(), 0);
    assert_eq!(state.pot, 0);
    assert!(matches!(state.phase, GamePhase::Waiting));
}

#[test]
fn join_seats_player_and_welcomes() {
    let mut state = GameState::new();
    let out = join(&mut state, "a", "Alice");
    assert_eq!(state.players.len(), 1);
    assert_eq!(state.players[0].chips, 1000);
    assert_eq!(state.players[0].name, "Alice");
    assert_eq!(out.len(), 2);
    assert!(matches!(
        &out[0],
        Outbound::Unicast(pid, ServerMessage::Welcome { chips: 1000, .. }) if pid == "a"
    ));
    assert!(matches!(out[1], Outbound::BroadcastState));
}

#[test]
fn duplicate_id_cannot_join_twice() {
    let mut state = GameState::new();
    join(&mut state, "a", "Alice");
    let out = join(&mut state, "a", "Imposter");
    assert_eq!(state.players.len(), 1);
    assert!(matches!(&out[0], Outbound::Unicast(pid, ServerMessage::Error { .. }) if pid == "a"));
}

#[test]
fn tenth_join_is_refused() {
    let mut state = GameState::new();
    for i in 0..9 {
        join(&mut state, &format!("p{}", i), "P");
    }
    assert_eq!(state.players.len(), 9);
    let out = join(&mut state, "p9", "P");
    assert_eq!(state.players.len(), 9);
    assert!(matches!(&out[0], Outbound::Unicast(_, ServerMessage::Error { .. })));
}

#[test]
fn ready_with_one_player_is_a_no_op() {
    let mut state = GameState::new();
    join(&mut state, "a", "Alice");
    let out = act(&mut state, "a", ClientMessage::Ready);
    assert!(matches!(state.phase, GamePhase::Waiting));
    assert_eq!(out.len(), 0);
}

#[test]
fn ready_posts_blinds_and_deals() {
    let mut state = three_seated();
    let out = act(&mut state, "a", ClientMessage::Ready);
    assert!(matches!(state.phase, GamePhase::PreFlop));
    assert_eq!(state.pot, 15);
    assert_eq!(state.current_bet, 10);
    // dealer at seat 0: seat 1 posts the small blind, seat 2 the big blind
    assert_eq!(state.players[0].bet, 0);
    assert_eq!(state.players[1].bet, 5);
    assert_eq!(state.players[2].bet, 10);
    assert_eq!(state.players[1].chips, 995);
    assert_eq!(state.players[2].chips, 990);
    assert_eq!(state.current_player_idx, 1);
    for p in state.players.iter() {
        assert_eq!(p.hand.len(), 2);
    }
    // two private deliveries per seat order, then the snapshot
    assert_eq!(out.len(), 4);
    assert!(matches!(
        &out[0],
        Outbound::Unicast(pid, ServerMessage::DealCards { cards }) if pid == "a" && cards.len() == 2
    ));
    assert!(matches!(out[3], Outbound::BroadcastState));
    assert_pot_covers_bets(&state, 0);
}

#[test]
fn blinds_call_call_check_opens_the_flop() {
    let mut state = three_seated();
    act(&mut state, "a", ClientMessage::Ready);
    // small blind completes
    act(&mut state, "b", ClientMessage::Call);
    assert_eq!(state.pot, 20);
    assert_pot_covers_bets(&state, 0);
    // big blind already matches and checks
    act(&mut state, "c", ClientMessage::Check);
    assert_eq!(state.pot, 20);
    assert_pot_covers_bets(&state, 0);
    // dealer calls, which closes the street
    act(&mut state, "a", ClientMessage::Call);
    assert!(matches!(state.phase, GamePhase::Flop));
    assert_eq!(state.pot, 30);
    assert_eq!(state.current_bet, 0);
    assert_eq!(state.community_cards.len(), 3);
    for p in state.players.iter() {
        assert_eq!(p.bet, 0);
    }
    assert_pot_covers_bets(&state, 30);
}

#[test]
fn out_of_turn_raise_changes_nothing() {
    let mut state = three_seated();
    act(&mut state, "a", ClientMessage::Ready);
    let pot = state.pot;
    let bets: Vec<u64> = state.players.iter().map(|p| p.bet).collect();
    // seat 1 is to act; seat 2 barges in
    let out = act(&mut state, "c", ClientMessage::Raise { amount: 50 });
    assert_eq!(state.pot, pot);
    assert_eq!(state.current_player_idx, 1);
    let bets_after: Vec<u64> = state.players.iter().map(|p| p.bet).collect();
    assert_eq!(bets, bets_after);
    assert_eq!(out.len(), 1);
    assert!(matches!(
        &out[0],
        Outbound::Unicast(pid, ServerMessage::Error { .. }) if pid == "c"
    ));
}

#[test]
fn check_while_owing_is_refused() {
    let mut state = three_seated();
    act(&mut state, "a", ClientMessage::Ready);
    // the small blind owes 5 more and may not check
    let out = act(&mut state, "b", ClientMessage::Check);
    assert_eq!(state.pot, 15);
    assert_eq!(state.current_player_idx, 1);
    assert!(matches!(
        &out[0],
        Outbound::Unicast(pid, ServerMessage::Error { message }) if pid == "b" && message == "Cannot check"
    ));
}

#[test]
fn raise_beyond_stack_is_refused() {
    let mut state = three_seated();
    act(&mut state, "a", ClientMessage::Ready);
    let out = act(&mut state, "b", ClientMessage::Raise { amount: 100_000 });
    assert_eq!(state.pot, 15);
    assert!(matches!(
        &out[0],
        Outbound::Unicast(pid, ServerMessage::Error { message }) if pid == "b" && message == "Not enough chips"
    ));
}

#[test]
fn action_outside_a_hand_is_refused() {
    let mut state = three_seated();
    let out = act(&mut state, "a", ClientMessage::Call);
    assert!(matches!(state.phase, GamePhase::Waiting));
    assert!(matches!(
        &out[0],
        Outbound::Unicast(pid, ServerMessage::Error { .. }) if pid == "a"
    ));
}

#[test]
fn folding_down_to_one_player_awards_the_pot() {
    let mut state = three_seated();
    act(&mut state, "a", ClientMessage::Ready);
    act(&mut state, "b", ClientMessage::Fold);
    let out = act(&mut state, "c", ClientMessage::Fold);
    // the hand ends at once: the dealer never bet and banks the blinds
    assert!(matches!(state.phase, GamePhase::Waiting));
    assert_eq!(state.pot, 0);
    let alice = state.players.iter().find(|p| p.id == "a").unwrap();
    assert_eq!(alice.chips, 1015);
    let bob = state.players.iter().find(|p| p.id == "b").unwrap();
    assert_eq!(bob.chips, 995);
    let carol = state.players.iter().find(|p| p.id == "c").unwrap();
    assert_eq!(carol.chips, 990);
    // the fold notice, then the result
    assert_eq!(out.len(), 2);
    assert!(matches!(
        &out[1],
        Outbound::Broadcast(ServerMessage::GameOver { winner_id, amount: 15 }) if winner_id == "a"
    ));
}

#[test]
fn turn_order_skips_folded_seats() {
    let mut state = three_seated();
    act(&mut state, "a", ClientMessage::Ready);
    // seats cycle a=0, b=1, c=2; b opens and folds
    assert_eq!(state.current_player_idx, 1);
    act(&mut state, "b", ClientMessage::Fold);
    assert_eq!(state.current_player_idx, 2);
    act(&mut state, "c", ClientMessage::Call);
    assert_eq!(state.current_player_idx, 0);
    // a raises; the turn passes straight over the folded b back to c
    act(&mut state, "a", ClientMessage::Raise { amount: 10 });
    assert_eq!(state.current_player_idx, 2);
    assert_pot_covers_bets(&state, 0);
}

#[test]
fn full_hand_reaches_showdown_and_pays_a_winner() {
    let mut state = three_seated();
    act(&mut state, "a", ClientMessage::Ready);
    // pre-flop: everyone matches the big blind
    act(&mut state, "b", ClientMessage::Call);
    act(&mut state, "c", ClientMessage::Check);
    act(&mut state, "a", ClientMessage::Call);
    assert!(matches!(state.phase, GamePhase::Flop));
    // with every live bet already level, one check closes each street
    for (expected_len, phase_name) in [(4usize, "turn"), (5, "river")] {
        let out = act(&mut state, "b", ClientMessage::Check);
        assert_eq!(state.community_cards.len(), expected_len, "after the {}", phase_name);
        assert!(matches!(out.last().unwrap(), Outbound::BroadcastState));
    }
    let out = act(&mut state, "b", ClientMessage::Check);
    // the river closed: showdown ran and the hand is over
    assert!(matches!(state.phase, GamePhase::Waiting));
    assert_eq!(state.pot, 0);
    assert!(matches!(
        out.last().unwrap(),
        Outbound::Broadcast(ServerMessage::GameOver { amount: 30, .. })
    ));
    // the pot went to exactly one player; no chips appeared from nowhere
    let total: u64 = state.players.iter().map(|p| p.chips).sum();
    assert_eq!(total, 3000);
    assert!(state.players.iter().any(|p| p.chips == 1020));
    assert_eq!(state.players.iter().filter(|p| p.chips == 990).count(), 2);
    // the dealer button moved on
    assert_eq!(state.dealer_idx, 1);
}

#[test]
fn disconnect_between_hands_removes_the_seat() {
    let mut state = three_seated();
    let pid = String::from("b");
    let out = state.remove_player(&pid);
    assert_eq!(state.players.len(), 2);
    assert!(state.players.iter().all(|p| p.id != "b"));
    assert_eq!(out.len(), 0);
}

#[test]
fn disconnect_mid_hand_folds_the_seat_until_the_hand_ends() {
    let mut state = three_seated();
    act(&mut state, "a", ClientMessage::Ready);
    let pid = String::from("c");
    let out = state.remove_player(&pid);
    // the seat stays for the hand, folded and disconnected
    assert_eq!(state.players.len(), 3);
    assert!(state.players[2].folded);
    assert!(!state.players[2].is_active);
    assert!(matches!(out[0], Outbound::BroadcastState));
    // b folds too, a wins, and only then is the dead seat pruned
    act(&mut state, "b", ClientMessage::Fold);
    assert!(matches!(state.phase, GamePhase::Waiting));
    assert_eq!(state.players.len(), 2);
    assert!(state.players.iter().all(|p| p.id != "c"));
}

#[test]
fn unknown_player_is_ignored() {
    let mut state = three_seated();
    act(&mut state, "a", ClientMessage::Ready);
    let pot = state.pot;
    let out = act(&mut state, "ghost", ClientMessage::Call);
    assert_eq!(out.len(), 0);
    assert_eq!(state.pot, pot);
}

#[test]
fn raise_notice_spells_out_the_amount() {
    let mut state = three_seated();
    act(&mut state, "a", ClientMessage::Ready);
    let out = act(&mut state, "b", ClientMessage::Raise { amount: 25 });
    assert!(matches!(
        &out[0],
        Outbound::Broadcast(ServerMessage::PlayerAction { player_id, action })
            if player_id == "b" && action == "Raise 25"
    ));
}

#[test]
fn decimal_rendering_is_exact() {
    assert_eq!(u64_to_string(0), "0");
    assert_eq!(u64_to_string(7), "7");
    assert_eq!(u64_to_string(1234), "1234");
    assert_eq!(u64_to_string(1000000), "1000000");
}
