use vstd::prelude::*;

verus! {

use vstd::string::StringExecFns;
use crate::card::Card;
use crate::game::GameState;

/// A request from a client to the table.
#[derive(Debug, Clone, PartialEq, Eq)]
pub enum ClientMessage {
    Join { name: String },
    Ready,
    Fold,
    Check,
    Call,
    Raise { amount: u64 },
}

/// A notice from the table to one client or to all of them.
#[derive(Debug)]
pub enum ServerMessage {
    Welcome { player_id: String, chips: u64 },
    GameState(GameState),
    DealCards { cards: Vec<Card> },
    PlayerAction { player_id: String, action: String },
    GameOver { winner_id: String, amount: u64 },
    Error { message: String },
}

/// One delivery the table asks the transport to make after a step:
/// a message to everyone, a message to one player, or a broadcast of the
/// table snapshot as it stands when the step returns.
#[derive(Debug)]
pub enum Outbound {
    Broadcast(ServerMessage),
    Unicast(String, ServerMessage),
    BroadcastState,
}

/// The decimal digit character for `d`.
pub open spec fn dec_digit(d: int) -> char {
    if d == 0 {
        '0'
    } else if d == 1 {
        '1'
    } else if d == 2 {
        '2'
    } else if d == 3 {
        '3'
    } else if d == 4 {
        '4'
    } else if d == 5 {
        '5'
    } else if d == 6 {
        '6'
    } else if d == 7 {
        '7'
    } else if d == 8 {
        '8'
    } else {
        '9'
    }
}

/// The decimal digits of `n`, most significant first, no leading zeros.
pub open spec fn dec_chars(n: int) -> Seq<char>
    decreases n,
{
    if n < 10 {
        seq![dec_digit(n)]
    } else {
        dec_chars(n / 10) + seq![dec_digit(n % 10)]
    }
}

fn digit_str(d: u64) -> (s: &'static str)
    requires
        d < 10,
    ensures
        s@ == seq![dec_digit(d as int)],
{
    if d == 0 {
        proof { reveal_strlit("0"); }
        "0"
    } else if d == 1 {
        proof { reveal_strlit("1"); }
        "1"
    } else if d == 2 {
        proof { reveal_strlit("2"); }
        "2"
    } else if d == 3 {
        proof { reveal_strlit("3"); }
        "3"
    } else if d == 4 {
        proof { reveal_strlit("4"); }
        "4"
    } else if d == 5 {
        proof { reveal_strlit("5"); }
        "5"
    } else if d == 6 {
        proof { reveal_strlit("6"); }
        "6"
    } else if d == 7 {
        proof { reveal_strlit("7"); }
        "7"
    } else if d == 8 {
        proof { reveal_strlit("8"); }
        "8"
    } else {
        proof { reveal_strlit("9"); }
        "9"
    }
}

fn push_dec(s: &mut String, n: u64)
    ensures
        final(s)@ == old(s)@ + dec_chars(n as int),
    decreases n,
{
    if n >= 10 {
        push_dec(s, n / 10);
        s.append(digit_str(n % 10));
        proof {
            assert(old(s)@ + (dec_chars(n as int / 10) + seq![dec_digit(n as int % 10)]) =~= (old(
                s,
            )@ + dec_chars(n as int / 10)) + seq![dec_digit(n as int % 10)]);
        }
    } else {
        s.append(digit_str(n));
    }
}

/// Write `n` in decimal.
pub fn u64_to_string(n: u64) -> (s: String)
    ensures
        s@ == dec_chars(n as int),
{
    let mut s = String::new();
    push_dec(&mut s, n);
    proof {
        assert(Seq::<char>::empty() + dec_chars(n as int) =~= dec_chars(n as int));
    }
    s
}

/// The notice text describing an action; requests that are no table
/// actions get no text.
pub open spec fn action_text(m: ClientMessage) -> Seq<char> {
    match m {
        ClientMessage::Fold => "Fold"@,
        ClientMessage::Check => "Check"@,
        ClientMessage::Call => "Call"@,
        ClientMessage::Raise { amount } => "Raise "@ + dec_chars(amount as int),
        ClientMessage::Join { .. } => Seq::empty(),
        ClientMessage::Ready => Seq::empty(),
    }
}

/// Build the notice text for a betting action.
pub fn describe_action(m: &ClientMessage) -> (s: String)
    requires
        m matches ClientMessage::Fold || m matches ClientMessage::Check || m
            matches ClientMessage::Call || m matches ClientMessage::Raise { .. },
    ensures
        s@ == action_text(*m),
{
    match m {
        ClientMessage::Fold => String::from_str("Fold"),
        ClientMessage::Check => String::from_str("Check"),
        ClientMessage::Call => String::from_str("Call"),
        ClientMessage::Raise { amount } => {
            let mut s = String::from_str("Raise ");
            push_dec(&mut s, *amount);
            s
        },
        _ => String::new(),
    }
}

} // verus!
