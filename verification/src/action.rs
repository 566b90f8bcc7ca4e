//! Actions

use vstd::prelude::*;
use crate::card::{Card, Suit};
use crate::seat::Seat;

verus! {

/// Types of actions that a player can take.
#[derive(Debug, Clone, Copy, PartialEq, Eq, Structural)]
pub enum ActionType {
    /// Bid the top card.
    BidTop,
    /// Bid a suit other than that of the top card.
    BidOther,
    /// Discard a card after picking up the top card as the dealer.
    DealerDiscard,
    /// Lead a new trick.
    Lead,
    /// Follow a pending trick.
    Follow,
}

/// The payload for actions that a player can take during the game.
#[derive(Debug, Clone, Copy, PartialEq, Eq, Structural)]
pub enum ActionData {
    /// Pass on an opportunity to declare trump.
    Pass,
    /// Declare trump.
    Call {
        /// The suit to declare. If the action is [`ActionType::BidTop`], this must be the same
        /// suit as the top card. If the action is [`ActionType::BidOther`], it _must not_ be the
        /// same suit as the top card.
        suit: Suit,
        /// If true, the player's teammate will sit out for the rest of the round.
        alone: bool,
    },
    /// Play or discard a card.
    Card { card: Card },
}

/// The action that the game's state machine expects to happen next.
#[derive(Debug, Clone, Copy, PartialEq, Eq, Structural)]
pub struct ExpectAction {
    /// The player expected to take the action.
    pub seat: Seat,
    /// The type of action.
    pub action: ActionType,
}

/// An action taken by a player during a round.
#[derive(Debug, Clone, Copy, PartialEq, Eq, Structural)]
pub struct Action {
    /// The player taking the action.
    pub seat: Seat,
    /// The type of action.
    pub action: ActionType,
    /// The action payload.
    pub data: ActionData,
}

impl ActionType {
    /// A few words that say what the player is to do.
    pub fn name(self) -> (s: &'static str)
        ensures
            s@ == (match self {
                ActionType::BidTop => "bid top"@,
                ActionType::BidOther => "bid other"@,
                ActionType::DealerDiscard => "discard"@,
                ActionType::Lead => "lead"@,
                ActionType::Follow => "follow"@,
            }),
    {
        match self {
            ActionType::BidTop => "bid top",
            ActionType::BidOther => "bid other",
            ActionType::DealerDiscard => "discard",
            ActionType::Lead => "lead",
            ActionType::Follow => "follow",
        }
    }

    /// Whether a payload has the shape that this kind of action carries:
    /// a bid passes or calls, every other action names a card.
    pub open spec fn spec_accepts(self, data: ActionData) -> bool {
        match self {
            ActionType::BidTop | ActionType::BidOther => !(data is Card),
            _ => data is Card,
        }
    }
}

impl ExpectAction {
    /// Create a new [`ExpectAction`].
    pub fn new(seat: Seat, action: ActionType) -> (e: Self)
        ensures
            e == (ExpectAction { seat, action }),
    {
        Self { seat, action }
    }

    /// Bind in a payload to create an [`Action`].
    pub fn with_data(self, data: ActionData) -> (a: Action)
        ensures
            a == (Action { seat: self.seat, action: self.action, data }),
    {
        Action::new(self.seat, self.action, data)
    }
}

impl Action {
    /// Create a new [`Action`].
    pub fn new(seat: Seat, action: ActionType, data: ActionData) -> (a: Self)
        ensures
            a == (Action { seat, action, data }),
    {
        Self { seat, action, data }
    }
}

} // verus!
