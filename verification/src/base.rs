//! Core round implementation.

use std::collections::VecDeque;
use vstd::prelude::*;
use crate::action::{Action, ActionData, ActionType, ExpectAction};
use crate::card::{Card, Suit};
use crate::config::RoundConfig;
use crate::error::{PlayerError, RoundError};
use crate::round::{
    filter_seat,
    lemma_initial_inv,
    lemma_step_preserves_inv,
    outcome_of,
    spec_initial,
    Contract,
    Event,
    EventView,
    PlayerState,
    Round,
    RoundView,
};
use crate::seat::Seat;
use crate::trick::{Trick, TrickView};
use crate::tricks::Tricks;

verus! {

/// The core implementation for [`Round`], around which other implementations are built.
#[derive(Debug)]
pub struct BaseRound {
    /// The dealer for this round.
    dealer: Seat,
    /// The upturned card.
    top: Card,
    /// The content of each player's hand, by the seat's place clockwise
    /// from North.
    hands: Vec<Vec<Card>>,
    /// The established contract, once bidding is over.
    contract: Option<Contract>,
    /// Tricks played during this round.
    tricks: Tricks,
    /// A queue of unacknowledged events.
    events: VecDeque<Event>,
    /// The next action required to advance the round.
    next_action: Option<ExpectAction>,
}

impl View for BaseRound {
    type V = RoundView;

    closed spec fn view(&self) -> RoundView {
        RoundView {
            dealer: self.dealer,
            top: self.top,
            hands: Seq::new(self.hands@.len(), |i: int| self.hands@[i]@),
            contract: self.contract,
            tricks: self.tricks@.tricks,
            trick_size: self.tricks@.trick_size,
            events: Seq::new(self.events@.len(), |i: int| self.events@[i]@),
            next_action: self.next_action,
        }
    }
}

/// A card that stands first in a hand at some place is the one that
/// taking the card out of the hand removes.
pub proof fn lemma_remove_first(hand: Seq<Card>, card: Card, index: int)
    requires
        0 <= index < hand.len(),
        hand[index] == card,
        forall|j: int| 0 <= j < index ==> hand[j] != card,
    ensures
        hand.contains(card),
        hand.remove_value(card) == hand.remove(index),
{
    hand.index_of_first_ensures(card);
    assert(hand.contains(card));
    let found = hand.index_of_first(card).unwrap();
    if found < index {
        assert(hand[found] != card);
    }
    if index < found {
        assert(hand[index] != card);
    }
}

impl BaseRound {
    /// Whether the round is in a state that play can reach.
    pub closed spec fn wf(&self) -> bool {
        self.tricks.wf() && self@.inv()
    }

    /// A well-formed round is in a state that play can reach.
    pub proof fn lemma_inv(&self)
        requires
            self.wf(),
        ensures
            self@.inv(),
    {
    }

    /// Deals a round from a deck: what the deal gives, or the error that
    /// the deck has too few cards or deals a card twice.
    pub fn new(dealer: Seat, deck: crate::card::Deck) -> (round: Result<Self, RoundError>)
        ensures
            match round {
                Ok(r) => {
                    &&& r.wf()
                    &&& deck@.len() >= 24
                    &&& crate::config::spec_deal(dealer, deck@).cards().no_duplicates()
                    &&& exists|config: crate::config::RoundConfigView|
                        config.valid() && config.canonical_of(
                            crate::config::spec_deal(dealer, deck@),
                        ) && #[trigger] spec_initial(config.dealer, config.hands, config.top) == r@
                },
                Err(e) => if deck@.len() < 24 {
                    e == RoundError::IncompleteDeck
                } else {
                    e == RoundError::DuplicateCard && !crate::config::spec_deal(
                        dealer,
                        deck@,
                    ).cards().no_duplicates()
                },
            },
    {
        match RoundConfig::new(dealer, deck) {
            Ok(config) => {
                let ghost dealt = config@;
                let round = BaseRound::from_config(config);
                assert(spec_initial(dealt.dealer, dealt.hands, dealt.top) == round@);
                Ok(round)
            },
            Err(e) => Err(e),
        }
    }

    /// Applies the specified action to advance the state machine.
    fn apply(&mut self, action: Action) -> (r: Result<(), RoundError>)
        requires
            old(self).wf(),
            old(self)@.next_action == Some(
                ExpectAction { seat: action.seat, action: action.action },
            ),
        ensures
            final(self).tricks.wf(),
            match r {
                Ok(()) => old(self)@.apply(action) == Ok::<RoundView, RoundError>(final(self)@),
                Err(e) => {
                    &&& old(self)@.apply(action) == Err::<RoundView, RoundError>(e)
                    &&& final(self)@ == old(self)@
                },
            },
    {
        let Action { seat, action, data } = action;
        let r = match (action, data) {
            (ActionType::BidTop, ActionData::Pass) => {
                self.pass_top(seat);
                Ok(())
            },
            (ActionType::BidTop, ActionData::Call { suit, alone }) => self.bid_top(
                seat,
                suit,
                alone,
            ),
            (ActionType::BidOther, ActionData::Pass) => self.pass_other(seat),
            (ActionType::BidOther, ActionData::Call { suit, alone }) => self.bid_other(
                seat,
                suit,
                alone,
            ),
            (ActionType::DealerDiscard, ActionData::Card { card }) => self.dealer_discard(
                seat,
                card,
            ),
            (ActionType::Lead, ActionData::Card { card }) => self.lead(seat, card),
            (ActionType::Follow, ActionData::Card { card }) => self.follow(seat, card),
            _ => {
                return Err(RoundError::InvalidActionData);
            },
        };
        match r {
            Ok(()) => Ok(()),
            Err(e) => Err(RoundError::Player(e)),
        }
    }

    /// Handles the case where the player declines to order up the top card.
    fn pass_top(&mut self, seat: Seat)
        requires
            old(self).tricks.wf(),
        ensures
            final(self).tricks.wf(),
            final(self)@ == old(self)@.pass_top(seat),
    {
        if seat == self.dealer {
            self.next_action = Some(ExpectAction::new(seat.next(), ActionType::BidOther));
        } else {
            self.next_action = Some(ExpectAction::new(seat.next(), ActionType::BidTop));
        }
    }

    /// Handles the case where the player order up the top card.
    fn bid_top(&mut self, maker: Seat, suit: Suit, alone: bool) -> (r: Result<(), PlayerError>)
        requires
            old(self).wf(),
        ensures
            final(self).tricks.wf(),
            match r {
                Ok(()) => old(self)@.bid_top(maker, suit, alone) == Ok::<RoundView, RoundError>(
                    final(self)@,
                ),
                Err(e) => old(self)@.bid_top(maker, suit, alone) == Err::<RoundView, RoundError>(
                    RoundError::Player(e),
                ) && final(self)@ == old(self)@,
            },
    {
        if suit == self.top.suit {
            let contract = Contract { maker, suit, alone };
            self.contract = Some(contract);
            let top = self.top;
            let dealer = self.dealer.index();
            self.hands[dealer].push(top);
            // If some player other than the dealer bids top alone, the top card is simply buried
            // with the rest of the dealer's hand - no need to discard.
            if alone && maker != self.dealer {
                self.first_trick();
            } else {
                self.next_action = Some(ExpectAction::new(self.dealer, ActionType::DealerDiscard));
            }
            self.events.push_back(Event::Call(contract));
            proof {
                let next = old(self)@.bid_top(maker, suit, alone).unwrap();
                assert(self@.hands =~= next.hands);
                assert(self@.events =~= next.events);
            }
            Ok(())
        } else {
            Err(PlayerError::MustCallTopSuit(self.top.suit))
        }
    }

    /// Handles the case where the player declines to call an alternative suit.
    fn pass_other(&mut self, seat: Seat) -> (r: Result<(), PlayerError>)
        requires
            old(self).tricks.wf(),
        ensures
            final(self).tricks.wf(),
            match r {
                Ok(()) => old(self)@.pass_other(seat) == Ok::<RoundView, RoundError>(final(self)@),
                Err(e) => old(self)@.pass_other(seat) == Err::<RoundView, RoundError>(
                    RoundError::Player(e),
                ) && final(self)@ == old(self)@,
            },
    {
        if seat == self.dealer {
            Err(PlayerError::DealerMustBidOther)
        } else {
            self.next_action = Some(ExpectAction::new(seat.next(), ActionType::BidOther));
            Ok(())
        }
    }

    /// Handles the case where the player calls an alternative suit.
    fn bid_other(&mut self, maker: Seat, suit: Suit, alone: bool) -> (r: Result<(), PlayerError>)
        requires
            old(self).tricks.wf(),
        ensures
            final(self).tricks.wf(),
            match r {
                Ok(()) => old(self)@.bid_other(maker, suit, alone) == Ok::<RoundView, RoundError>(
                    final(self)@,
                ),
                Err(e) => old(self)@.bid_other(maker, suit, alone) == Err::<
                    RoundView,
                    RoundError,
                >(RoundError::Player(e)) && final(self)@ == old(self)@,
            },
    {
        if suit == self.top.suit {
            Err(PlayerError::CannotCallTopSuit(self.top.suit))
        } else {
            let contract = Contract { maker, suit, alone };
            self.contract = Some(contract);
            self.first_trick();
            self.events.push_back(Event::Call(contract));
            proof {
                let next = old(self)@.bid_other(maker, suit, alone).unwrap();
                assert(self@.hands =~= next.hands);
                assert(self@.events =~= next.events);
            }
            Ok(())
        }
    }

    /// Handles the case where the dealer discards a card after picking up the top card.
    fn dealer_discard(&mut self, dealer: Seat, card: Card) -> (r: Result<(), PlayerError>)
        requires
            old(self).wf(),
            old(self)@.contract is Some,
        ensures
            final(self).tricks.wf(),
            match r {
                Ok(()) => old(self)@.dealer_discard(dealer, card) == Ok::<RoundView, RoundError>(
                    final(self)@,
                ),
                Err(e) => old(self)@.dealer_discard(dealer, card) == Err::<RoundView, RoundError>(
                    RoundError::Player(e),
                ) && final(self)@ == old(self)@,
            },
    {
        match self.find_and_discard(dealer, card) {
            Ok(()) => {},
            Err(e) => {
                return Err(e);
            },
        }
        self.first_trick();
        proof {
            let next = old(self)@.dealer_discard(dealer, card).unwrap();
            assert(self@.hands =~= next.hands);
        }
        Ok(())
    }

    /// Handles the start of a new trick.
    fn lead(&mut self, seat: Seat, card: Card) -> (r: Result<(), PlayerError>)
        requires
            old(self).wf(),
            old(self)@.next_action == Some(ExpectAction { seat, action: ActionType::Lead }),
        ensures
            final(self).tricks.wf(),
            match r {
                Ok(()) => old(self)@.lead(seat, card) == Ok::<RoundView, RoundError>(final(self)@),
                Err(e) => old(self)@.lead(seat, card) == Err::<RoundView, RoundError>(
                    RoundError::Player(e),
                ) && final(self)@ == old(self)@,
            },
    {
        let contract = self.contract.unwrap();
        match self.find_and_discard(seat, card) {
            Ok(()) => {},
            Err(e) => {
                return Err(e);
            },
        }
        proof {
            let makers = contract.maker.spec_team();
            crate::round::lemma_counts_cover(old(self)@.tricks, old(self)@.trick_size, makers);
        }
        let trick = Trick::new(contract.suit, seat, card);
        self.tricks.push(trick);
        self.next_action = Some(
            ExpectAction::new(filter_seat(contract, seat.next()), ActionType::Follow),
        );
        proof {
            let next = old(self)@.lead(seat, card).unwrap();
            assert(self@.hands =~= next.hands);
        }
        Ok(())
    }

    /// Handles the play of a card into a pending trick.
    fn follow(&mut self, seat: Seat, card: Card) -> (r: Result<(), PlayerError>)
        requires
            old(self).wf(),
            old(self)@.next_action == Some(ExpectAction { seat, action: ActionType::Follow }),
        ensures
            final(self).tricks.wf(),
            match r {
                Ok(()) => old(self)@.follow(seat, card) == Ok::<RoundView, RoundError>(final(self)@),
                Err(e) => old(self)@.follow(seat, card) == Err::<RoundView, RoundError>(
                    RoundError::Player(e),
                ) && final(self)@ == old(self)@,
            },
    {
        let contract = self.contract.unwrap();
        let index = match self.find_card(seat, card) {
            Ok(index) => index,
            Err(e) => {
                return Err(e);
            },
        };
        let trick_size = self.tricks.trick_size();
        let trick = self.tricks.last().unwrap();
        if !trick.is_following_lead(self.hands[seat.index()].as_slice(), card) {
            return Err(PlayerError::MustFollowLead(seat, trick.lead().1));
        }
        self.tricks.play(seat, card);
        let place = seat.index();
        self.hands[place].remove(index);
        proof {
            lemma_remove_first(old(self)@.hand(seat), card, index as int);
            let played = RoundView {
                tricks: old(self)@.tricks.drop_last().push(
                    old(self)@.tricks.last().push(seat, card),
                ),
                ..old(self)@.without_card(seat, card)
            };
            assert(self@.hands =~= played.hands);
            assert(self@.events =~= played.events);
            assert(self@ == RoundView { next_action: self@.next_action, ..played });
        }
        let trick = self.tricks.last().unwrap();
        if trick.len() < trick_size {
            self.next_action = Some(
                ExpectAction::new(filter_seat(contract, seat.next()), ActionType::Follow),
            );
        } else {
            let winner = trick.best().0;
            self.events.push_back(Event::Trick(trick.clone()));
            match outcome_of(contract, &self.tricks) {
                Some(outcome) => {
                    self.events.push_back(Event::Round(outcome));
                    self.next_action = None;
                    proof {
                        let next = old(self)@.follow(seat, card).unwrap();
                        assert(self@.events =~= next.events);
                        assert(self@.hands =~= next.hands);
                    }
                },
                None => {
                    self.next_trick(winner);
                    proof {
                        let next = old(self)@.follow(seat, card).unwrap();
                        assert(self@.events =~= next.events);
                        assert(self@.hands =~= next.hands);
                    }
                },
            }
        }
        Ok(())
    }

    /// Finds a card among the specified player's hand and discards it.
    fn find_and_discard(&mut self, seat: Seat, card: Card) -> (r: Result<(), PlayerError>)
        requires
            old(self)@.hands.len() == 4,
        ensures
            match r {
                Ok(()) => {
                    &&& old(self)@.hand(seat).contains(card)
                    &&& final(self)@ == old(self)@.without_card(seat, card)
                },
                Err(e) => !old(self)@.hand(seat).contains(card) && e == PlayerError::CardNotHeld(
                    seat,
                    card,
                ) && final(self)@ == old(self)@,
            },
            final(self).tricks == old(self).tricks,
    {
        match self.find_card(seat, card) {
            Ok(index) => {
                proof {
                    lemma_remove_first(self@.hand(seat), card, index as int);
                }
                self.discard(seat, index);
                Ok(())
            },
            Err(e) => Err(e),
        }
    }

    /// Finds a card among the specified player's hand.
    fn find_card(&self, seat: Seat, card: Card) -> (r: Result<usize, PlayerError>)
        requires
            self@.hands.len() == 4,
        ensures
            match r {
                Ok(index) => {
                    &&& index < self@.hand(seat).len()
                    &&& self@.hand(seat)[index as int] == card
                    &&& forall|j: int| 0 <= j < index ==> self@.hand(seat)[j] != card
                },
                Err(e) => !self@.hand(seat).contains(card) && e == PlayerError::CardNotHeld(
                    seat,
                    card,
                ),
            },
    {
        let hand = &self.hands[seat.index()];
        let mut i: usize = 0;
        while i < hand.len()
            invariant
                i <= hand.len(),
                hand@ == self@.hand(seat),
                forall|j: int| 0 <= j < i ==> hand@[j] != card,
            decreases hand.len() - i,
        {
            if hand[i] == card {
                return Ok(i);
            }
            i = i + 1;
        }
        Err(PlayerError::CardNotHeld(seat, card))
    }

    /// Discards the specified card from the player's hand.
    fn discard(&mut self, seat: Seat, index: usize)
        requires
            old(self)@.hands.len() == 4,
            index < old(self)@.hand(seat).len(),
        ensures
            final(self)@ == (RoundView {
                hands: old(self)@.hands.update(
                    seat.spec_index(),
                    old(self)@.hand(seat).remove(index as int),
                ),
                ..old(self)@
            }),
            final(self).tricks == old(self).tricks,
    {
        let place = seat.index();
        self.hands[place].remove(index);
        proof {
            assert(self@.hands =~= old(self)@.hands.update(
                seat.spec_index(),
                old(self)@.hand(seat).remove(index as int),
            ));
            assert(self@.events =~= old(self)@.events);
        }
    }

    /// Sets up the state machine for the first trick, choosing the eldest hand to lead.
    fn first_trick(&mut self)
        requires
            old(self).tricks.wf(),
            old(self)@.contract is Some,
        ensures
            final(self).tricks.wf(),
            final(self)@ == old(self)@.first_trick(),
    {
        let contract = self.contract.unwrap();
        if contract.alone {
            self.tricks.set_trick_size(3);
        }
        let seat = filter_seat(contract, self.dealer.next());
        self.next_trick(seat);
    }

    /// Sets up the state machine for the next trick.
    fn next_trick(&mut self, seat: Seat)
        ensures
            final(self)@ == old(self)@.expecting(seat, ActionType::Lead),
            final(self).tricks == old(self).tricks,
    {
        self.next_action = Some(ExpectAction { seat, action: ActionType::Lead });
    }
}

impl Round for BaseRound {
    open spec fn state(&self) -> RoundView {
        self@
    }

    open spec fn wf(&self) -> bool {
        BaseRound::wf(self)
    }

    open spec fn can_record(&self) -> bool {
        true
    }

    proof fn lemma_wf(&self) {
    }

    fn from_config(config: RoundConfig) -> (round: Self) {
        let dealer = config.dealer();
        let top = config.top();
        let ghost dealt = config@;
        let hands = config.into_hands();
        let mut events: VecDeque<Event> = VecDeque::new();
        events.push_back(Event::Deal(dealer, top));
        let round = BaseRound {
            dealer,
            top,
            hands,
            contract: None,
            tricks: Tricks::default(),
            events,
            next_action: Some(ExpectAction::new(dealer.next(), ActionType::BidTop)),
        };
        proof {
            assert(round@.hands =~= dealt.hands);
            assert(round@.events =~= seq![EventView::Deal(dealer, top)]);
            assert(round@.tricks =~= Seq::<TrickView>::empty());
            lemma_initial_inv(dealer, dealt.hands, top);
        }
        round
    }

    fn dealer(&self) -> (dealer: Seat) {
        self.dealer
    }

    fn top_card(&self) -> (top: Card) {
        self.top
    }

    fn pop_event(&mut self) -> (event: Option<Event>) {
        let event = self.events.pop_front();
        proof {
            if event is Some {
                assert(self@.events =~= old(self)@.events.drop_first());
            } else {
                assert(self@.events =~= old(self)@.events);
            }
            assert(self@.hands =~= old(self)@.hands);
        }
        event
    }

    fn next_action(&self) -> (next: Option<ExpectAction>) {
        self.next_action
    }

    fn contract(&self) -> (contract: Option<Contract>) {
        self.contract
    }

    fn tricks(&self) -> (tricks: &Tricks) {
        &self.tricks
    }

    fn player_state(&self, seat: Seat) -> (state: PlayerState<'_>) {
        proof {
            assert(self@.hands.len() == 4);
        }
        PlayerState::new(
            seat,
            self.dealer,
            self.top,
            self.contract,
            &self.hands[seat.index()],
            &self.tricks,
        )
    }

    fn apply_action(&mut self, action: Action) -> (r: Result<(), RoundError>) {
        match self.next_action {
            None => Err(RoundError::RoundOver),
            Some(ExpectAction { seat, action: kind }) => {
                if seat != action.seat || kind != action.action {
                    Err(RoundError::ExpectActioned { seat, action: kind })
                } else {
                    let r = self.apply(action);
                    proof {
                        if r is Ok {
                            lemma_step_preserves_inv(old(self)@, action);
                        }
                    }
                    r
                }
            },
        }
    }
}

} // verus!
