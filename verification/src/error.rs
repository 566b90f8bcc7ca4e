//! Errors

use vstd::prelude::*;
use crate::action::ActionType;
use crate::card::{Card, Suit};
use crate::seat::Seat;

verus! {

/// The number by which a node of the action log is known.
pub type LogId = u32;

/// An invalid action taken by a player.
#[derive(Debug, Clone, Copy, PartialEq, Eq, Structural)]
pub enum PlayerError {
    /// The dealer is required to choose a suit after all players have passed.
    DealerMustBidOther,
    /// Must call the same suit as the top card.
    MustCallTopSuit(Suit),
    /// Cannot call the same suit as the top card.
    CannotCallTopSuit(Suit),
    /// The player doesn't actually hold the card they attempted to play.
    CardNotHeld(Seat, Card),
    /// The player must follow the lead card for this trick.
    MustFollowLead(Seat, Card),
}

/// An error that can occur during the round.
#[derive(Debug, Clone, Copy, PartialEq, Eq, Structural)]
pub enum RoundError {
    /// Not playing with a full deck.
    IncompleteDeck,
    /// The deck has duplicate cards.
    DuplicateCard,
    /// A player has too many or too few cards.
    InvalidHandSize,
    /// The provided payload is not appropriate for the kind of action.
    InvalidActionData,
    /// The provided action doesn't match the expected one.
    ExpectActioned { seat: Seat, action: ActionType },
    /// The game is over, no more actions are expected.
    RoundOver,
    /// Invalid reference to a log record.
    InvalidLogId(LogId),
    /// A player attempted to play an invalid action.
    Player(PlayerError),
}

} // verus!
