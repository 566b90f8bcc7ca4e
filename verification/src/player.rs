//! What the round asks of whoever decides for a seat.

use vstd::prelude::*;
use crate::action::{Action, ActionData, ActionType, ExpectAction};
use crate::error::PlayerError;
use crate::round::{Event, PlayerState, RoundView};

verus! {

/// Whether a seat can be asked for an action of the given kind: it holds
/// at least one card and no more than six; a card is asked for only once
/// there is a contract, and a card that follows only into a trick.
pub open spec fn spec_can_act(state: PlayerState, action: ActionType) -> bool {
    &&& state.tricks.wf()
    &&& 1 <= state.hand@.len() <= 6
    &&& match action {
        ActionType::BidTop | ActionType::BidOther => true,
        ActionType::DealerDiscard | ActionType::Lead => state.contract is Some,
        ActionType::Follow => state.contract is Some && state.tricks@.tricks.len() >= 1,
    }
}

/// Whether a payload is within the rules for an action of the given kind,
/// as far as the seat can see. A bid on the top card passes or calls the
/// suit of the top card. A bid after that calls another suit, or passes
/// where the seat is not the dealer. A card that is discarded, led or
/// played is one of the hand, and where it follows it is one that may be
/// played into the trick.
pub open spec fn spec_legal(state: PlayerState, action: ActionType, data: ActionData) -> bool {
    match action {
        ActionType::BidTop => match data {
            ActionData::Pass => true,
            ActionData::Call { suit, alone } => suit == state.top.suit,
            ActionData::Card { card } => false,
        },
        ActionType::BidOther => match data {
            ActionData::Pass => state.seat != state.dealer,
            ActionData::Call { suit, alone } => suit != state.top.suit,
            ActionData::Card { card } => false,
        },
        ActionType::DealerDiscard | ActionType::Lead => match data {
            ActionData::Card { card } => state.hand@.contains(card),
            _ => false,
        },
        ActionType::Follow => match data {
            ActionData::Card { card } => state.hand@.contains(card)
                && state.tricks@.tricks.last().may_play(state.hand@, card),
            _ => false,
        },
    }
}

/// Whether a bundle of state is what a seat sees of a round.
pub open spec fn spec_sees(state: PlayerState, round: RoundView) -> bool {
    &&& state.dealer == round.dealer
    &&& state.top == round.top
    &&& state.contract == round.contract
    &&& state.hand@ == round.hand(state.seat)
    &&& state.tricks@ == round.tricks_view()
}

/// Tells whether a seat can be asked for an action of the given kind.
pub fn can_act(state: &PlayerState, action: ActionType) -> (ok: bool)
    requires
        state.tricks.wf(),
    ensures
        ok == spec_can_act(*state, action),
{
    if state.hand.len() < 1 || state.hand.len() > 6 {
        return false;
    }
    match action {
        ActionType::BidTop | ActionType::BidOther => true,
        ActionType::DealerDiscard | ActionType::Lead => state.contract.is_some(),
        ActionType::Follow => state.contract.is_some() && state.tricks.len() >= 1,
    }
}

/// A trait that implements a euchre player.
pub trait Player {
    /// Take the specified action.
    fn take_action(&self, state: PlayerState, action: ActionType) -> (data: ActionData)
        requires
            spec_can_act(state, action),
    ;

    /// Indicates that the player has made an invalid play.
    ///
    /// The implementation may return true, if a retry is desired. Otherwise,
    /// the invalid play will be converted into a fatal error.
    #[allow(unused_variables)]
    fn handle_error(&self, err: PlayerError) -> (retry: bool)
        default_ensures
            !retry,
    {
        false
    }

    /// Notifies the player of a public event.
    #[allow(unused_variables)]
    fn notify(&self, state: PlayerState, event: &Event) {
    }
}

/// The round accepts the action that is expected of a seat with any
/// payload that is within the rules as far as the seat can see.
pub proof fn lemma_legal_is_accepted(
    round: RoundView,
    state: PlayerState,
    expect: ExpectAction,
    data: ActionData,
)
    requires
        round.inv(),
        round.next_action == Some(expect),
        state.seat == expect.seat,
        spec_sees(state, round),
        spec_legal(state, expect.action, data),
    ensures
        round.step(Action { seat: expect.seat, action: expect.action, data }) is Ok,
{
}

} // verus!
