use vstd::prelude::*;

verus! {

/// The ways a hand can fail.
///
/// `ConfigurationError` is a pre-flight rejection (blinds out of order, too
/// few players); `ProtocolViolation` is an unexpected response from a
/// decision provider; `InvariantViolation` is a defensive stop (deck
/// exhaustion, acting with no active players, the action cap, an uneven
/// pot at showdown, or a player unable to post a forced contribution).
#[derive(Clone, Copy, Debug, PartialEq, Eq, Structural)]
pub enum HoldemError {
    ConfigurationError,
    ProtocolViolation,
    InvariantViolation,
}

} // verus!
