//! A No-Limit Texas Hold'em engine: a card codec, a seven-card hand
//! evaluator, a betting-round state machine, and an orchestrator that drives
//! one hand from the blinds to the payout.
//!
//! The flop deals three shared cards and the turn and river one more
//! each, so the river leaves exactly the five-card board the showdown
//! scores. A showdown driven with any other board size is refused as
//! defective.
//!
//! Open question: the evaluator never treats the ace as rank one, so the
//! wheel (ace through five) does not count as a straight.

pub mod card_enums;
pub mod coms;
pub mod dealer;
pub mod errors;
pub mod games;
pub mod hand_eval;
pub mod player;
