use vstd::prelude::*;

use crate::coms::Turn;
use crate::errors::HoldemError;

verus! {

/// Which forced contribution is being collected.
#[derive(Clone, Copy, Debug, PartialEq, Eq, Structural)]
pub enum BlindType {
    Big,
    Little,
    Ante,
}

/// A forced contribution: the amount and which kind it is.
#[derive(Clone, Copy, Debug)]
pub struct Blind {
    pub amount: u32,
    pub btype: BlindType,
}

/// One betting decision: wager an amount (0 is a check) or fold.
#[derive(Clone, Copy, Debug, PartialEq, Eq, Structural)]
pub enum Play {
    Bet(u32),
    Fold,
}

/// The capability interface of a seated participant. The orchestrator
/// depends only on this interface: it hands out cards, collects forced
/// contributions, asks for a decision each turn, and settles at the end.
/// A method returns an error to abort the hand: a participant that cannot
/// post a forced contribution has lost, and a remote participant that
/// answers out of protocol is fatal.
pub trait HoldemPlayer: Sized {
    /// Assigns the two private cards for the hand.
    fn recieve_cards(&mut self, cards: [u8; 2]);

    /// Collects a forced contribution (an ante or a blind).
    fn blind(&mut self, blind: Blind) -> Result<u32, HoldemError>;

    /// Reveals the private cards at showdown.
    fn show(&self) -> Result<[u8; 2], HoldemError>;

    /// The five cards this participant would play from its hand and the
    /// shared cards.
    fn best_hand(&self, shared_cards: &Vec<u8>) -> Result<[u8; 5], HoldemError>;

    /// Asks for this participant's decision for the current turn.
    fn play(
        &mut self,
        current_players: &Vec<usize>,
        current_position: usize,
        current_pot: u32,
        min_bet: u32,
        shared_cards: &Vec<u8>,
        turn: &Turn,
    ) -> Result<Play, HoldemError>;

    /// Pays an amount into the pot from this participant's stack.
    fn bet(&mut self, shared_cards: &Vec<u8>, min_call: u32) -> u32;

    /// Gives up the hand.
    fn fold(&mut self);

    /// Records the seat position for this hand (counted from 1).
    fn assign_position(&mut self, player_position: usize, n_players: usize);

    /// Ends the hand: clears the per-hand state and credits any winnings.
    fn end_round(&mut self, winnings: Option<u32>);

    /// How much this participant has paid into the pot this hand.
    fn pot_contribution(&self) -> u32;
}

/// A locally automated participant: it keeps its own chip accounting and
/// always calls the minimum bet it can afford, folding otherwise. The
/// remote participant, which asks a decision provider over the wire,
/// lives outside the verified engine and implements the same interface.
#[derive(Debug)]
pub struct Player {
    pub name: String,
    pub chips: u32,
    pub hand: Option<[u8; 2]>,
    pub position: Option<[usize; 2]>,
    pub pot_contrib: u32,
}

impl Player {
    /// A fresh participant with a name and a starting stack.
    pub fn new(name: String, chips: u32) -> (p: Player)
        ensures
            p.name == name,
            p.chips == chips,
            p.hand is None,
            p.position is None,
            p.pot_contrib == 0,
    {
        Player { name, chips, hand: None, position: None, pot_contrib: 0 }
    }

    /// The header that identifies this participant on the wire.
    pub fn msg_header(&self) -> (h: String)
        ensures
            h == self.name,
    {
        self.name.clone()
    }
}

/// Saturating addition on the chip counter: the sum, capped at the
/// counter's maximum.
pub open spec fn spec_capped_add(a: u32, b: u32) -> u32 {
    if a + b <= u32::MAX {
        (a + b) as u32
    } else {
        u32::MAX
    }
}

impl HoldemPlayer for Player {
    fn recieve_cards(&mut self, cards: [u8; 2])
        ensures
            final(self).hand == Some(cards),
            final(self).name == old(self).name,
            final(self).chips == old(self).chips,
            final(self).position == old(self).position,
            final(self).pot_contrib == old(self).pot_contrib,
    {
        self.hand = Some(cards);
    }

    fn blind(&mut self, blind: Blind) -> (r: Result<u32, HoldemError>)
        ensures
            r is Ok <==> old(self).chips >= blind.amount,
            r is Ok ==> r == Ok::<u32, HoldemError>(blind.amount) && final(self).chips == old(self).chips - blind.amount && final(self).name == old(self).name && final(self).hand == old(self).hand && final(self).position == old(self).position && final(self).pot_contrib == old(self).pot_contrib,
            r is Err ==> r == Err::<u32, HoldemError>(HoldemError::InvariantViolation) && *final(self) == *old(self),
    {
        if self.chips < blind.amount {
            return Err(HoldemError::InvariantViolation);
        }
        self.chips = self.chips - blind.amount;
        Ok(blind.amount)
    }

    fn show(&self) -> (r: Result<[u8; 2], HoldemError>)
        ensures
            r is Ok <==> self.hand is Some,
            self.hand matches Some(hand) ==> r == Ok::<[u8; 2], HoldemError>(hand),
            r is Err ==> r == Err::<[u8; 2], HoldemError>(HoldemError::InvariantViolation),
    {
        match self.hand {
            Some(hand) => Ok(hand),
            None => Err(HoldemError::InvariantViolation),
        }
    }

    fn best_hand(&self, shared_cards: &Vec<u8>) -> (r: Result<[u8; 5], HoldemError>)
        ensures
            r is Ok <==> (shared_cards@.len() >= 3 && self.hand is Some),
            r matches Ok(bh) ==> self.hand is Some && bh@ == self.hand->0@ + shared_cards@.take(3),
            r is Err ==> r == Err::<[u8; 5], HoldemError>(HoldemError::InvariantViolation),
    {
        if shared_cards.len() < 3 {
            return Err(HoldemError::InvariantViolation);
        }
        match self.hand {
            Some(hand) => {
                let bh: [u8; 5] = [
                    hand[0],
                    hand[1],
                    shared_cards[0],
                    shared_cards[1],
                    shared_cards[2],
                ];
                proof {
                    assert(bh@ =~= self.hand->0@ + shared_cards@.take(3));
                }
                Ok(bh)
            },
            None => Err(HoldemError::InvariantViolation),
        }
    }

    fn play(
        &mut self,
        _current_players: &Vec<usize>,
        _current_position: usize,
        _current_pot: u32,
        min_bet: u32,
        shared_cards: &Vec<u8>,
        _turn: &Turn,
    ) -> (r: Result<Play, HoldemError>)
        ensures
            r is Ok <==> old(self).hand is Some,
            r is Err ==> r == Err::<Play, HoldemError>(HoldemError::InvariantViolation) && *final(self) == *old(self),
            old(self).hand is Some && min_bet <= old(self).chips ==> r == Ok::<
                Play,
                HoldemError,
            >(Play::Bet(min_bet)) && final(self).chips == old(self).chips - min_bet && final(self).pot_contrib == spec_capped_add(old(self).pot_contrib, min_bet) && final(self).hand
                == old(self).hand,
            old(self).hand is Some && min_bet > old(self).chips ==> r == Ok::<
                Play,
                HoldemError,
            >(Play::Fold) && final(self).hand is None && final(self).chips == old(self).chips
                && final(self).pot_contrib == old(self).pot_contrib,
            final(self).name == old(self).name,
            final(self).position == old(self).position,
    {
        if self.hand.is_none() {
            return Err(HoldemError::InvariantViolation);
        }
        if min_bet <= self.chips {
            let paid = self.bet(shared_cards, min_bet);
            Ok(Play::Bet(paid))
        } else {
            self.fold();
            Ok(Play::Fold)
        }
    }

    fn bet(&mut self, _shared_cards: &Vec<u8>, min_call: u32) -> (amount: u32)
        ensures
            amount == if min_call <= old(self).chips {
                min_call
            } else {
                old(self).chips
            },
            final(self).chips == old(self).chips - amount,
            final(self).pot_contrib == spec_capped_add(old(self).pot_contrib, amount),
            final(self).name == old(self).name,
            final(self).hand == old(self).hand,
            final(self).position == old(self).position,
    {
        let amount: u32 = if min_call <= self.chips {
            min_call
        } else {
            self.chips
        };
        self.chips = self.chips - amount;
        self.pot_contrib = if amount <= u32::MAX - self.pot_contrib {
            self.pot_contrib + amount
        } else {
            u32::MAX
        };
        amount
    }

    fn fold(&mut self)
        ensures
            final(self).hand is None,
            final(self).name == old(self).name,
            final(self).chips == old(self).chips,
            final(self).position == old(self).position,
            final(self).pot_contrib == old(self).pot_contrib,
    {
        self.hand = None;
    }

    fn assign_position(&mut self, player_position: usize, n_players: usize)
        ensures
            final(self).position matches Some(p) && p@ == seq![player_position, n_players],
            final(self).name == old(self).name,
            final(self).chips == old(self).chips,
            final(self).hand == old(self).hand,
            final(self).pot_contrib == old(self).pot_contrib,
    {
        self.position = Some([player_position, n_players]);
    }

    fn end_round(&mut self, winnings: Option<u32>)
        ensures
            final(self).hand is None,
            final(self).position is None,
            final(self).pot_contrib == 0,
            final(self).name == old(self).name,
            final(self).chips == (match winnings {
                Some(val) => spec_capped_add(old(self).chips, val),
                None => old(self).chips,
            }),
    {
        self.pot_contrib = 0;
        self.position = None;
        self.hand = None;
        match winnings {
            Some(val) => {
                self.chips = if val <= u32::MAX - self.chips {
                    self.chips + val
                } else {
                    u32::MAX
                };
            },
            None => (),
        }
    }

    fn pot_contribution(&self) -> (r: u32)
        ensures
            r == self.pot_contrib,
    {
        self.pot_contrib
    }
}

} // verus!
