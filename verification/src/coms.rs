use vstd::prelude::*;

use crate::errors::HoldemError;
use crate::player::Play;

verus! {

/// One side of the wire protocol: something that can push a message out.
pub trait SendMessage {
    fn send();
}

/// The other side: something that can be rebuilt from a received message.
pub trait RecvMessage: Sized {
    fn recieve(msg: &str) -> Self;
}

/// The action tag of a decision provider's reply.
#[derive(Clone, Copy, Debug, PartialEq, Eq, Structural)]
pub enum Plays {
    BET,
    FOLD,
}

/// A player's two private cards, with the owner's name.
#[derive(Clone, Debug)]
pub struct PlayerHand {
    pub cards: [u8; 2],
    pub player_name: String,
}

/// Acknowledgement of an exchange: OK, or an error the caller must treat
/// as fatal for the hand.
#[derive(Clone, Copy, Debug, PartialEq, Eq, Structural)]
pub enum Status {
    OK,
    ERROR,
}

impl Status {
    /// Turns an ERROR acknowledgement into the fatal protocol error. The
    /// message argument only describes the failing exchange; it does not
    /// affect the outcome.
    pub fn check_status(&self, _err_msg: &str) -> (r: Result<(), HoldemError>)
        ensures
            r == Ok::<(), HoldemError>(()) <==> *self == Status::OK,
            *self == Status::ERROR ==> r == Err::<(), HoldemError>(HoldemError::ProtocolViolation),
    {
        match self {
            Status::OK => Ok(()),
            Status::ERROR => Err(HoldemError::ProtocolViolation),
        }
    }
}

/// The street a turn request belongs to.
#[derive(Clone, Copy, Debug, PartialEq, Eq, Structural)]
pub enum Turn {
    HOLE,
    FLOP,
    TURN,
    RIVER,
}

/// The logical message shapes of the decision-provider protocol. The
/// engine sends a turn request per decision and expects a play message
/// back; the remaining shapes carry game start, round setup, status and
/// settlement information.
#[derive(Clone, Debug)]
pub enum Message {
    ReadyForGameMessage,
    StartGameMessage { players: Vec<String>, chips: Vec<u32> },
    RoundInitMessage { ante: u32, blinds: [u32; 2], n_players: usize, position: usize },
    TurnMessage {
        current_players: Vec<usize>,
        current_position: usize,
        current_pot: u32,
        min_bet: u32,
        max_bet: u32,
        shared_cards: Vec<u8>,
        turn: Turn,
    },
    PlayMessage { play_type: Plays, bet_amount: u32 },
    EndOfRoundMessage { winnings: Vec<i32> },
    StatusMessage { status: Status },
    EndOfGameMessage,
}

/// Decodes a decision provider's reply into a play. Only a play message
/// is a legal reply to a turn request; anything else is a protocol
/// violation that aborts the hand.
pub fn play_from_message(msg: &Message) -> (r: Result<Play, HoldemError>)
    ensures
        match *msg {
            Message::PlayMessage { play_type, bet_amount } => r == Ok::<Play, HoldemError>(
                if play_type == Plays::FOLD {
                    Play::Fold
                } else {
                    Play::Bet(bet_amount)
                },
            ),
            _ => r == Err::<Play, HoldemError>(HoldemError::ProtocolViolation),
        },
{
    match msg {
        Message::PlayMessage { play_type, bet_amount } => match play_type {
            Plays::FOLD => Ok(Play::Fold),
            Plays::BET => Ok(Play::Bet(*bet_amount)),
        },
        _ => Err(HoldemError::ProtocolViolation),
    }
}

} // verus!
