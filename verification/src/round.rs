//! Round management: the contract, the outcome, and the rules of a round
//! as a state machine over plain values.
//!
//! ## Gameplay
//!
//! A round is initiated by a deal, and then players bid for trump in clockwise order. Each player
//! is given an opportunity to "order up" the top card into the dealer's hand and declare its suit
//! as trump. When a player does so, the dealer acquires the top card, discards another card from
//! their hand, and tricks begin.
//!
//! If all players decline to make a contract over the top card, then each player is given an
//! opportunity to name an alternative suit as trump. The dealer is forced to choose, if no one
//! else will.
//!
//! The first trick is led by the next player clockwise from the dealer. Each trick involves a card
//! played, in clockwise order, from each player. When the trick is complete, the player who played
//! the highest-valued card wins the trick and leads the next.

use vstd::prelude::*;
use crate::action::{Action, ActionData, ActionType, ExpectAction};
use crate::card::{sorted_cards, spec_sort, spec_sorted, Card, CardOrder, Suit};
use crate::config::RoundConfig;
use crate::error::{PlayerError, RoundError};
use crate::seat::{Seat, Team};
use crate::trick::{Trick, TrickView};
use crate::tricks::{spec_count_won, Tricks, TricksView};

verus! {

/// The contract established by whomever calls suit.
#[derive(Debug, Clone, Copy, PartialEq, Eq, Structural)]
pub struct Contract {
    pub maker: Seat,
    pub suit: Suit,
    pub alone: bool,
}

/// The outcome of a round.
#[derive(Debug, Clone, Copy, PartialEq, Eq, Structural)]
pub struct RoundOutcome {
    pub team: Team,
    pub points: u8,
}

/// An event that occurs during the game.
#[derive(Debug)]
pub enum Event {
    /// The dealer dealt and revealed the top card.
    Deal(Seat, Card),
    /// A player declared a contract.
    Call(Contract),
    /// The trick is over.
    Trick(Trick),
    /// The round is over.
    Round(RoundOutcome),
    /// The game is over.
    Game(Team),
}

/// An event as plain values.
pub enum EventView {
    Deal(Seat, Card),
    Call(Contract),
    Trick(TrickView),
    Round(RoundOutcome),
    Game(Team),
}

impl View for Event {
    type V = EventView;

    open spec fn view(&self) -> EventView {
        match *self {
            Event::Deal(seat, card) => EventView::Deal(seat, card),
            Event::Call(contract) => EventView::Call(contract),
            Event::Trick(trick) => EventView::Trick(trick@),
            Event::Round(outcome) => EventView::Round(outcome),
            Event::Game(team) => EventView::Game(team),
        }
    }
}

impl Clone for Event {
    fn clone(&self) -> (event: Self)
        ensures
            event@ == self@,
    {
        match self {
            Event::Deal(seat, card) => Event::Deal(*seat, *card),
            Event::Call(contract) => Event::Call(*contract),
            Event::Trick(trick) => Event::Trick(trick.clone()),
            Event::Round(outcome) => Event::Round(*outcome),
            Event::Game(team) => Event::Game(*team),
        }
    }
}

impl Contract {
    /// The seat that acts when `seat` would be next: the partner of a
    /// maker who goes alone sits out, and the turn passes on.
    pub open spec fn spec_skip_partner(self, seat: Seat) -> Seat {
        if self.alone && seat == self.maker.spec_opposite() {
            seat.spec_next()
        } else {
            seat
        }
    }

    /// The number of cards that completes a trick under this contract.
    pub open spec fn spec_trick_size(self) -> int {
        if self.alone {
            3
        } else {
            4
        }
    }

    /// The number of tricks that a round under this contract is played
    /// over.
    pub open spec fn spec_total_tricks(self) -> int {
        if self.alone {
            3
        } else {
            5
        }
    }

    /// The number of tricks that a round under this contract is played
    /// over.
    pub fn total_tricks(self) -> (n: u8)
        ensures
            n == self.spec_total_tricks(),
    {
        if self.alone {
            3
        } else {
            5
        }
    }
}

/// Filters the teammate for a loner hand.
pub fn filter_seat(contract: Contract, seat: Seat) -> (next: Seat)
    ensures
        next == contract.spec_skip_partner(seat),
{
    if contract.alone && seat == contract.maker.opposite() {
        seat.next()
    } else {
        seat
    }
}

impl RoundOutcome {
    /// Creates a new [`RoundOutcome`].
    pub fn new(team: Team, points: u8) -> (outcome: Self)
        ensures
            outcome == (RoundOutcome { team, points }),
    {
        RoundOutcome { team, points }
    }
}

/// How a round under a contract has ended, if it has, given the tricks
/// played. The defenders win two points as soon as three tricks are
/// theirs. Otherwise the round lasts until all its tricks are complete,
/// and the makers win: four points for every trick taken alone, two for
/// every trick taken with a partner, and one point else.
pub open spec fn spec_outcome(contract: Contract, tricks: TricksView) -> Option<RoundOutcome> {
    let makers = contract.maker.spec_team();
    let defenders = makers.spec_other();
    let m = tricks.win_count(makers);
    let d = tricks.win_count(defenders);
    let total = contract.spec_total_tricks();
    if d >= 3 {
        Some(RoundOutcome { team: defenders, points: 2 })
    } else if m + d == total {
        if m == total {
            Some(
                RoundOutcome {
                    team: makers,
                    points: if contract.alone {
                        4
                    } else {
                        2
                    },
                },
            )
        } else {
            Some(RoundOutcome { team: makers, points: 1 })
        }
    } else {
        None
    }
}

/// The state of a round as plain values.
pub struct RoundView {
    /// The dealer for this round.
    pub dealer: Seat,
    /// The upturned card.
    pub top: Card,
    /// The content of each player's hand, by the seat's place clockwise
    /// from North.
    pub hands: Seq<Seq<Card>>,
    /// The established contract, once bidding is over.
    pub contract: Option<Contract>,
    /// Tricks played during this round.
    pub tricks: Seq<TrickView>,
    /// The number of cards that completes a trick.
    pub trick_size: int,
    /// The events that nobody has taken notice of yet, oldest first.
    pub events: Seq<EventView>,
    /// The next action required to advance the round.
    pub next_action: Option<ExpectAction>,
}

impl RoundView {
    /// The hand of a seat.
    pub open spec fn hand(self, seat: Seat) -> Seq<Card> {
        self.hands[seat.spec_index()]
    }

    /// The tricks together with their size.
    pub open spec fn tricks_view(self) -> TricksView {
        TricksView { tricks: self.tricks, trick_size: self.trick_size }
    }

    /// The outcome of the round, if it is over.
    pub open spec fn outcome(self) -> Option<RoundOutcome> {
        match self.contract {
            Some(contract) => spec_outcome(contract, self.tricks_view()),
            None => None,
        }
    }

    /// The state with another action expected next.
    pub open spec fn expecting(self, seat: Seat, action: ActionType) -> RoundView {
        RoundView { next_action: Some(ExpectAction { seat, action }), ..self }
    }

    /// The state with the first occurrence of a card gone from a hand.
    pub open spec fn without_card(self, seat: Seat, card: Card) -> RoundView {
        RoundView {
            hands: self.hands.update(seat.spec_index(), self.hand(seat).remove_value(card)),
            ..self
        }
    }

    /// The state when play begins: with a maker who goes alone a trick has
    /// three cards, and the seat after the dealer leads, or the seat after
    /// that where the first sits out.
    pub open spec fn first_trick(self) -> RoundView {
        let contract = self.contract.unwrap();
        RoundView {
            trick_size: if contract.alone {
                3
            } else {
                self.trick_size
            },
            ..self
        }.expecting(contract.spec_skip_partner(self.dealer.spec_next()), ActionType::Lead)
    }

    /// A seat declines the top card: the turn passes on, and after the
    /// dealer the second round of bids begins.
    pub open spec fn pass_top(self, seat: Seat) -> RoundView {
        if seat == self.dealer {
            self.expecting(seat.spec_next(), ActionType::BidOther)
        } else {
            self.expecting(seat.spec_next(), ActionType::BidTop)
        }
    }

    /// A seat orders up the top card, which must be of the suit called.
    /// The dealer takes the card up and then discards, unless another
    /// seat plays alone: then play begins at once.
    pub open spec fn bid_top(self, maker: Seat, suit: Suit, alone: bool) -> Result<
        RoundView,
        RoundError,
    > {
        if suit != self.top.suit {
            Err(RoundError::Player(PlayerError::MustCallTopSuit(self.top.suit)))
        } else {
            let contract = Contract { maker, suit, alone };
            let taken = RoundView {
                contract: Some(contract),
                hands: self.hands.update(
                    self.dealer.spec_index(),
                    self.hand(self.dealer).push(self.top),
                ),
                ..self
            };
            let next = if alone && maker != self.dealer {
                taken.first_trick()
            } else {
                taken.expecting(self.dealer, ActionType::DealerDiscard)
            };
            Ok(RoundView { events: next.events.push(EventView::Call(contract)), ..next })
        }
    }

    /// A seat declines to name a suit, which the dealer may not.
    pub open spec fn pass_other(self, seat: Seat) -> Result<RoundView, RoundError> {
        if seat == self.dealer {
            Err(RoundError::Player(PlayerError::DealerMustBidOther))
        } else {
            Ok(self.expecting(seat.spec_next(), ActionType::BidOther))
        }
    }

    /// A seat names a suit, which may not be that of the top card; play
    /// begins.
    pub open spec fn bid_other(self, maker: Seat, suit: Suit, alone: bool) -> Result<
        RoundView,
        RoundError,
    > {
        if suit == self.top.suit {
            Err(RoundError::Player(PlayerError::CannotCallTopSuit(self.top.suit)))
        } else {
            let contract = Contract { maker, suit, alone };
            let next = RoundView { contract: Some(contract), ..self }.first_trick();
            Ok(RoundView { events: next.events.push(EventView::Call(contract)), ..next })
        }
    }

    /// The dealer discards a card that they hold; play begins.
    pub open spec fn dealer_discard(self, dealer: Seat, card: Card) -> Result<
        RoundView,
        RoundError,
    > {
        if !self.hand(dealer).contains(card) {
            Err(RoundError::Player(PlayerError::CardNotHeld(dealer, card)))
        } else {
            Ok(self.without_card(dealer, card).first_trick())
        }
    }

    /// A seat leads a card that they hold: a new trick opens, and the
    /// next seat that plays is to follow.
    pub open spec fn lead(self, seat: Seat, card: Card) -> Result<RoundView, RoundError> {
        let contract = self.contract.unwrap();
        if !self.hand(seat).contains(card) {
            Err(RoundError::Player(PlayerError::CardNotHeld(seat, card)))
        } else {
            let played = self.without_card(seat, card);
            Ok(
                RoundView {
                    tricks: self.tricks.push(
                        TrickView { trump: contract.suit, plays: seq![(seat, card)] },
                    ),
                    ..played
                }.expecting(contract.spec_skip_partner(seat.spec_next()), ActionType::Follow),
            )
        }
    }

    /// A seat plays a card that they hold into the open trick. The card
    /// must follow the lead if the hand can. A trick that is complete goes
    /// to its winner, who leads the next, unless the round is decided.
    pub open spec fn follow(self, seat: Seat, card: Card) -> Result<RoundView, RoundError> {
        let contract = self.contract.unwrap();
        let trick = self.tricks.last();
        if !self.hand(seat).contains(card) {
            Err(RoundError::Player(PlayerError::CardNotHeld(seat, card)))
        } else if !trick.may_play(self.hand(seat), card) {
            Err(RoundError::Player(PlayerError::MustFollowLead(seat, trick.plays[0].1)))
        } else {
            let trick = trick.push(seat, card);
            let played = RoundView {
                tricks: self.tricks.drop_last().push(trick),
                ..self.without_card(seat, card)
            };
            if trick.plays.len() < self.trick_size {
                Ok(
                    played.expecting(
                        contract.spec_skip_partner(seat.spec_next()),
                        ActionType::Follow,
                    ),
                )
            } else {
                let taken = RoundView {
                    events: played.events.push(EventView::Trick(trick)),
                    ..played
                };
                match taken.outcome() {
                    Some(outcome) => Ok(
                        RoundView {
                            events: taken.events.push(EventView::Round(outcome)),
                            next_action: None,
                            ..taken
                        },
                    ),
                    None => Ok(taken.expecting(trick.winning_seat(), ActionType::Lead)),
                }
            }
        }
    }

    /// What an action of the expected seat and kind does to the round.
    pub open spec fn apply(self, action: Action) -> Result<RoundView, RoundError> {
        match (action.action, action.data) {
            (ActionType::BidTop, ActionData::Pass) => Ok(self.pass_top(action.seat)),
            (ActionType::BidTop, ActionData::Call { suit, alone }) => self.bid_top(
                action.seat,
                suit,
                alone,
            ),
            (ActionType::BidOther, ActionData::Pass) => self.pass_other(action.seat),
            (ActionType::BidOther, ActionData::Call { suit, alone }) => self.bid_other(
                action.seat,
                suit,
                alone,
            ),
            (ActionType::DealerDiscard, ActionData::Card { card }) => self.dealer_discard(
                action.seat,
                card,
            ),
            (ActionType::Lead, ActionData::Card { card }) => self.lead(action.seat, card),
            (ActionType::Follow, ActionData::Card { card }) => self.follow(action.seat, card),
            _ => Err(RoundError::InvalidActionData),
        }
    }

    /// What any action does to the round: after the end nothing is
    /// accepted, and before it only the action that is expected, from the
    /// seat whose turn it is.
    pub open spec fn step(self, action: Action) -> Result<RoundView, RoundError> {
        match self.next_action {
            None => Err(RoundError::RoundOver),
            Some(expect) => if expect.seat != action.seat || expect.action != action.action {
                Err(RoundError::ExpectActioned { seat: expect.seat, action: expect.action })
            } else {
                self.apply(action)
            },
        }
    }

    /// What a sequence of actions does to the round, one after the other;
    /// the first that fails ends it with its error.
    pub open spec fn replay(self, actions: Seq<Action>) -> Result<RoundView, RoundError>
        decreases actions.len(),
    {
        if actions.len() == 0 {
            Ok(self)
        } else {
            match self.replay(actions.drop_last()) {
                Ok(state) => state.step(actions.last()),
                Err(e) => Err(e),
            }
        }
    }

    /// Whether two states agree on everything at the table: hands,
    /// contract, tricks and the action expected. The events still waiting
    /// to be noticed do not count.
    pub open spec fn same_table(self, other: RoundView) -> bool {
        self == (RoundView { events: self.events, ..other })
    }
}

/// Computes how a round under a contract has ended, if it has, given the
/// tricks played.
pub fn outcome_of(contract: Contract, tricks: &Tricks) -> (outcome: Option<RoundOutcome>)
    requires
        tricks.wf(),
    ensures
        outcome == spec_outcome(contract, tricks@),
{
    proof {
        tricks.lemma_wf();
    }
    let makers = Team::from(contract.maker);
    let defenders = makers.other();
    let makers_count = tricks.win_count(makers);
    let defenders_count = tricks.win_count(defenders);
    let total = contract.total_tricks();
    if defenders_count >= 3 {
        // Euchred! No need to keep playing.
        Some(RoundOutcome::new(defenders, 2))
    } else if makers_count + defenders_count == total {
        // All tricks have been played, and the makers were not euchred.
        if makers_count == total {
            if contract.alone {
                Some(RoundOutcome::new(makers, 4))
            } else {
                Some(RoundOutcome::new(makers, 2))
            }
        } else {
            Some(RoundOutcome::new(makers, 1))
        }
    } else {
        None
    }
}

/// The state visible to a particular seat.
#[derive(Debug)]
pub struct PlayerState<'a> {
    /// The player who has access to this state.
    pub seat: Seat,
    /// The dealer of this round.
    pub dealer: Seat,
    /// The top card for this round.
    pub top: Card,
    /// The contract for this round, if one has been declared.
    pub contract: Option<Contract>,
    /// The player's hand.
    pub hand: &'a Vec<Card>,
    /// The tricks played so far this round.
    pub tricks: &'a Tricks,
}

impl<'a> PlayerState<'a> {
    /// The order in which the hand is shown: under the trump suit once a
    /// contract is made, before that by suit and rank.
    pub open spec fn spec_order(&self) -> CardOrder {
        match self.contract {
            Some(contract) => CardOrder::Trump(contract.suit),
            None => CardOrder::Plain,
        }
    }

    /// Creates a new [`PlayerState`].
    pub fn new(
        seat: Seat,
        dealer: Seat,
        top: Card,
        contract: Option<Contract>,
        hand: &'a Vec<Card>,
        tricks: &'a Tricks,
    ) -> (state: Self)
        ensures
            state.seat == seat,
            state.dealer == dealer,
            state.top == top,
            state.contract == contract,
            state.hand == hand,
            state.tricks == tricks,
    {
        Self { seat, dealer, top, contract, hand, tricks }
    }

    /// Returns the player's hand, in sorted order, based on effective suit and
    /// intrinsic card value.
    pub fn sorted_hand(&self) -> (cards: Vec<Card>)
        ensures
            cards@ == spec_sort(self.hand@, self.spec_order()),
            cards@.to_multiset() == self.hand@.to_multiset(),
            spec_sorted(cards@, self.spec_order()),
    {
        match self.contract {
            Some(contract) => sorted_cards(self.hand, CardOrder::Trump(contract.suit)),
            None => sorted_cards(self.hand, CardOrder::Plain),
        }
    }

    /// Counts the complete tricks that each team has won, North and South
    /// first: none before there is a contract, and after that the tricks
    /// of the size that the contract gives.
    pub fn trick_counts(&self) -> (counts: (u8, u8))
        requires
            self.tricks.wf(),
        ensures
            match self.contract {
                Some(contract) => {
                    &&& counts.0 == spec_count_won(
                        self.tricks@.tricks,
                        contract.spec_trick_size(),
                        Team::NorthSouth,
                    )
                    &&& counts.1 == spec_count_won(
                        self.tricks@.tricks,
                        contract.spec_trick_size(),
                        Team::EastWest,
                    )
                },
                None => counts == (0u8, 0u8),
            },
    {
        let contract = match self.contract {
            Some(contract) => contract,
            None => {
                return (0, 0);
            },
        };
        let trick_size: usize = if contract.alone {
            3
        } else {
            4
        };
        proof {
            self.tricks.lemma_wf();
        }
        let mut north_south: u8 = 0;
        let mut east_west: u8 = 0;
        let mut i: usize = 0;
        let ghost tricks = self.tricks@.tricks;
        assert(tricks.take(0) =~= Seq::<TrickView>::empty());
        while i < self.tricks.len()
            invariant
                self.tricks.wf(),
                tricks == self.tricks@.tricks,
                i <= tricks.len() <= 5,
                trick_size == contract.spec_trick_size(),
                north_south == spec_count_won(tricks.take(i as int), trick_size as int, Team::NorthSouth),
                east_west == spec_count_won(tricks.take(i as int), trick_size as int, Team::EastWest),
                north_south <= i,
                east_west <= i,
            decreases tricks.len() - i,
        {
            let t = self.tricks.get(i).unwrap();
            proof {
                assert(tricks.take(i + 1).drop_last() =~= tricks.take(i as int));
                assert(tricks.take(i + 1).last() == t@);
            }
            if t.len() == trick_size {
                match Team::from(t.best().0) {
                    Team::NorthSouth => {
                        north_south = north_south + 1;
                    },
                    Team::EastWest => {
                        east_west = east_west + 1;
                    },
                }
            }
            i = i + 1;
        }
        assert(tricks.take(i as int) =~= tricks);
        (north_south, east_west)
    }

    /// Returns the trick that is being played, or was played last.
    pub fn current_trick(&self) -> (trick: Option<&Trick>)
        ensures
            match trick {
                Some(t) => self.tricks@.tricks.len() > 0 && t@ == self.tricks@.tricks.last() && (
                self.tricks.wf() ==> t.wf()),
                None => self.tricks@.tricks.len() == 0,
            },
    {
        self.tricks.last()
    }
}

/// A round of euchre.
///
/// ## State management
///
/// The round begins in an initial state, after cards have been dealt, and the top card has been
/// upturned. To advance the state of the round, players are required to take actions. The identity
/// of the next player and the action they are expected to take is always known deterministically,
/// and may be obtained via [`next_action`](`Round::next_action`)
///
/// Once a player has chosen an action, it is applied using
/// [`apply_action`](`Round::apply_action`).
///
/// ## Events
///
/// Certain actions trigger events, such as the end of a trick. These events are stored in a queue,
/// which may be drained using [`pop_event`](`Round::pop_event`).
pub trait Round: Sized {
    /// The state of the round as plain values.
    spec fn state(&self) -> RoundView;

    /// Whether the round is in a state that play can reach.
    spec fn wf(&self) -> bool;

    /// Whether the round can take note of one more action. A round that
    /// keeps a record of its actions cannot when the record is full.
    spec fn can_record(&self) -> bool;

    /// A well-formed round is in a state that play can reach.
    proof fn lemma_wf(&self)
        requires
            self.wf(),
        ensures
            self.state().inv(),
    ;

    /// Begins a round from its initial conditions.
    fn from_config(config: RoundConfig) -> (round: Self)
        ensures
            round.wf(),
            round.state() == spec_initial(config@.dealer, config@.hands, config@.top),
    ;

    /// The dealer of this round.
    fn dealer(&self) -> (dealer: Seat)
        requires
            self.wf(),
        ensures
            dealer == self.state().dealer,
    ;

    /// The top card from this round.
    fn top_card(&self) -> (top: Card)
        requires
            self.wf(),
        ensures
            top == self.state().top,
    ;

    /// Returns the next action that's required to advance the state of the
    /// round, or None if the round is over.
    fn next_action(&self) -> (next: Option<ExpectAction>)
        requires
            self.wf(),
        ensures
            next == self.state().next_action,
    ;

    /// The declared contract.
    fn contract(&self) -> (contract: Option<Contract>)
        requires
            self.wf(),
        ensures
            contract == self.state().contract,
    ;

    /// Tricks played during this round.
    fn tricks(&self) -> (tricks: &Tricks)
        requires
            self.wf(),
        ensures
            tricks.wf(),
            tricks@ == self.state().tricks_view(),
    ;

    /// Returns a bundle of state visible to the specified player.
    fn player_state(&self, seat: Seat) -> (state: PlayerState<'_>)
        requires
            self.wf(),
        ensures
            state.seat == seat,
            state.dealer == self.state().dealer,
            state.top == self.state().top,
            state.contract == self.state().contract,
            state.hand@ == self.state().hand(seat),
            state.tricks.wf(),
            state.tricks@ == self.state().tricks_view(),
    ;

    /// Applies the specified action. An action that is rejected changes
    /// nothing; and none is rejected that the rules accept, unless the
    /// round cannot take note of it.
    fn apply_action(&mut self, action: Action) -> (r: Result<(), RoundError>)
        requires
            old(self).wf(),
        ensures
            final(self).wf(),
            match r {
                Ok(()) => old(self).state().step(action) == Ok::<RoundView, RoundError>(
                    final(self).state(),
                ),
                Err(e) => final(self).state() == old(self).state() && (old(self).state().step(
                    action,
                ) == Err::<RoundView, RoundError>(e) || !old(self).can_record()),
            },
    ;

    /// Pops the oldest event from the queue of events.
    fn pop_event(&mut self) -> (event: Option<Event>)
        requires
            old(self).wf(),
        ensures
            final(self).wf(),
            match event {
                Some(e) => {
                    &&& old(self).state().events.len() > 0
                    &&& e@ == old(self).state().events[0]
                    &&& final(self).state() == (RoundView {
                        events: old(self).state().events.drop_first(),
                        ..old(self).state()
                    })
                },
                None => old(self).state().events.len() == 0 && final(self).state() == old(self).state(),
            },
    ;

    /// The outcome of the round, if it is over.
    fn outcome(&self) -> (outcome: Option<RoundOutcome>)
        requires
            self.wf(),
        ensures
            outcome == self.state().outcome(),
    {
        match self.contract() {
            Some(contract) => outcome_of(contract, self.tricks()),
            None => None,
        }
    }
}

/// Whether every one of the given tricks has the given number of cards.
pub open spec fn spec_all_complete(tricks: Seq<TrickView>, trick_size: int) -> bool {
    forall|i: int| 0 <= i < tricks.len() ==> (#[trigger] tricks[i]).plays.len() == trick_size
}

impl RoundView {
    /// Whether a seat sits out: the partner of a maker who goes alone.
    pub open spec fn sits_out(self, seat: Seat) -> bool {
        match self.contract {
            Some(contract) => contract.alone && seat == contract.maker.spec_opposite(),
            None => false,
        }
    }

    /// What holds of the tricks while cards are played, or after: they
    /// are of the size and within the number that the contract gives.
    pub open spec fn in_play(self) -> bool {
        &&& self.contract is Some
        &&& self.trick_size == self.contract.unwrap().spec_trick_size()
        &&& self.tricks.len() <= self.contract.unwrap().spec_total_tricks()
    }

    /// What holds of a round in every state that play can reach. There
    /// are four hands. Every trick has a lead, is played in the trump of
    /// the contract, and holds no card of a seat that sits out. Bids come
    /// before any contract or trick; the dealer alone discards; a trick
    /// is led only when all tricks before are complete and the round is
    /// undecided, by a seat that does not sit out; a card follows only
    /// into an incomplete last trick; and the round is over exactly when
    /// its outcome is decided.
    pub open spec fn inv(self) -> bool {
        &&& self.hands.len() == 4
        &&& (self.trick_size == 3 || self.trick_size == 4)
        &&& self.tricks.len() <= 5
        &&& forall|i: int| 0 <= i < self.tricks.len() ==> (#[trigger] self.tricks[i]).plays.len() >= 1
        &&& forall|i: int|
            0 <= i < self.tricks.len() && self.contract is Some ==> (#[trigger] self.tricks[i]).trump
                == self.contract.unwrap().suit
        &&& forall|i: int, j: int|
            0 <= i < self.tricks.len() && 0 <= j < self.tricks[i].plays.len() ==> !self.sits_out(
                (#[trigger] self.tricks[i].plays[j]).0,
            )
        &&& match self.next_action {
            Some(expect) => match expect.action {
                ActionType::BidTop | ActionType::BidOther => {
                    &&& self.contract is None
                    &&& self.tricks.len() == 0
                    &&& self.trick_size == 4
                },
                ActionType::DealerDiscard => {
                    &&& self.contract is Some
                    &&& self.tricks.len() == 0
                    &&& self.trick_size == 4
                    &&& expect.seat == self.dealer
                },
                ActionType::Lead => {
                    &&& self.in_play()
                    &&& spec_all_complete(self.tricks, self.trick_size)
                    &&& self.outcome() is None
                    &&& !self.sits_out(expect.seat)
                },
                ActionType::Follow => {
                    &&& self.in_play()
                    &&& self.tricks.len() >= 1
                    &&& spec_all_complete(self.tricks.drop_last(), self.trick_size)
                    &&& self.tricks.last().plays.len() < self.trick_size
                    &&& self.outcome() is None
                    &&& !self.sits_out(expect.seat)
                },
            },
            None => {
                &&& self.in_play()
                &&& spec_all_complete(self.tricks, self.trick_size)
                &&& self.outcome() is Some
            },
        }
    }
}

/// Every complete trick is won by one team or the other: where all
/// tricks are complete, the two counts add up to the number of tricks.
pub proof fn lemma_counts_cover(tricks: Seq<TrickView>, trick_size: int, team: Team)
    requires
        spec_all_complete(tricks, trick_size),
    ensures
        spec_count_won(tricks, trick_size, team) + spec_count_won(
            tricks,
            trick_size,
            team.spec_other(),
        ) == tricks.len(),
    decreases tricks.len(),
{
    if tricks.len() > 0 {
        assert forall|i: int| 0 <= i < tricks.drop_last().len() implies (#[trigger] tricks.drop_last()[i]).plays.len()
            == trick_size by {
            assert(tricks.drop_last()[i] == tricks[i]);
        }
        lemma_counts_cover(tricks.drop_last(), trick_size, team);
        assert(tricks.last() == tricks[tricks.len() - 1]);
    }
}

/// A team has won no more tricks than there are.
pub proof fn lemma_count_bound(tricks: Seq<TrickView>, trick_size: int, team: Team)
    ensures
        spec_count_won(tricks, trick_size, team) <= tricks.len(),
    decreases tricks.len(),
{
    if tricks.len() > 0 {
        lemma_count_bound(tricks.drop_last(), trick_size, team);
    }
}

/// A trick that is not complete changes no count.
pub proof fn lemma_count_open_trick(
    tricks: Seq<TrickView>,
    trick: TrickView,
    trick_size: int,
    team: Team,
)
    requires
        trick.plays.len() != trick_size,
    ensures
        spec_count_won(tricks.push(trick), trick_size, team) == spec_count_won(
            tricks,
            trick_size,
            team,
        ),
{
    assert(tricks.push(trick).drop_last() =~= tricks);
}


/// The state in which a round begins: the cards as dealt, no contract, no
/// trick, the deal as the one event, and the seat after the dealer to bid
/// on the top card.
pub open spec fn spec_initial(dealer: Seat, hands: Seq<Seq<Card>>, top: Card) -> RoundView {
    RoundView {
        dealer,
        top,
        hands,
        contract: None,
        tricks: Seq::empty(),
        trick_size: 4,
        events: seq![EventView::Deal(dealer, top)],
        next_action: Some(ExpectAction { seat: dealer.spec_next(), action: ActionType::BidTop }),
    }
}

/// A round begins in a state that play can reach.
pub proof fn lemma_initial_inv(dealer: Seat, hands: Seq<Seq<Card>>, top: Card)
    requires
        hands.len() == 4,
    ensures
        spec_initial(dealer, hands, top).inv(),
{
}

/// Every action that is accepted leads from a state that play can reach
/// to another such state, and changes neither dealer nor top card.
pub proof fn lemma_step_preserves_inv(state: RoundView, action: Action)
    requires
        state.inv(),
        state.step(action) is Ok,
    ensures
        state.step(action).unwrap().inv(),
        state.step(action).unwrap().dealer == state.dealer,
        state.step(action).unwrap().top == state.top,
{
    let seat = action.seat;
    match (action.action, action.data) {
        (ActionType::BidTop, ActionData::Pass) => {},
        (ActionType::BidTop, ActionData::Call { suit, alone }) => {
            lemma_first_trick(state, state.step(action).unwrap(), seat, suit, alone);
        },
        (ActionType::BidOther, ActionData::Pass) => {},
        (ActionType::BidOther, ActionData::Call { suit, alone }) => {
            lemma_first_trick(state, state.step(action).unwrap(), seat, suit, alone);
        },
        (ActionType::DealerDiscard, ActionData::Card { card }) => {
            let c = state.contract.unwrap();
            lemma_first_trick(state, state.step(action).unwrap(), c.maker, c.suit, c.alone);
        },
        (ActionType::Lead, ActionData::Card { card }) => {
            lemma_lead_preserves_inv(state, seat, card);
        },
        (ActionType::Follow, ActionData::Card { card }) => {
            lemma_follow_preserves_inv(state, seat, card);
        },
        _ => {},
    }
}

/// Leading a card keeps the round in a state that play can reach.
proof fn lemma_lead_preserves_inv(state: RoundView, seat: Seat, card: Card)
    requires
        state.inv(),
        state.next_action == Some(ExpectAction { seat, action: ActionType::Lead }),
        state.lead(seat, card) is Ok,
    ensures
        state.lead(seat, card).unwrap().inv(),
{
    let next = state.lead(seat, card).unwrap();
    let c = state.contract.unwrap();
    let makers = c.maker.spec_team();
    let trick = TrickView { trump: c.suit, plays: seq![(seat, card)] };
    lemma_counts_cover(state.tricks, state.trick_size, makers);
    lemma_count_open_trick(state.tricks, trick, state.trick_size, makers);
    lemma_count_open_trick(state.tricks, trick, state.trick_size, makers.spec_other());
    assert(next.tricks == state.tricks.push(trick));
    assert(next.tricks.drop_last() =~= state.tricks);
    assert(next.tricks.last() == trick);
    assert(trick.plays[0] == (seat, card));
    assert(next.outcome() is None);
    assert forall|i: int| 0 <= i < next.tricks.len() implies (#[trigger] next.tricks[i]).plays.len()
        >= 1 && next.tricks[i].trump == c.suit by {
        if i < state.tricks.len() {
            assert(next.tricks[i] == state.tricks[i]);
        }
    }
    assert forall|i: int, j: int|
        0 <= i < next.tricks.len() && 0 <= j < next.tricks[i].plays.len() implies !next.sits_out(
        (#[trigger] next.tricks[i].plays[j]).0,
    ) by {
        if i < state.tricks.len() {
            assert(next.tricks[i] == state.tricks[i]);
        }
    }
}

/// Following with a card keeps the round in a state that play can reach.
proof fn lemma_follow_preserves_inv(state: RoundView, seat: Seat, card: Card)
    requires
        state.inv(),
        state.next_action == Some(ExpectAction { seat, action: ActionType::Follow }),
        state.follow(seat, card) is Ok,
    ensures
        state.follow(seat, card).unwrap().inv(),
{
    let next = state.follow(seat, card).unwrap();
    let c = state.contract.unwrap();
    let makers = c.maker.spec_team();
    let before = state.tricks.drop_last();
    let trick = state.tricks.last().push(seat, card);
    assert(next.tricks == before.push(trick));
    assert(next.tricks.drop_last() =~= before);
    assert(next.tricks.last() == trick);
    assert(state.tricks.last() == state.tricks[state.tricks.len() - 1]);
    assert(trick.plays[0] == state.tricks.last().plays[0]);
    assert forall|i: int| 0 <= i < next.tricks.len() implies (#[trigger] next.tricks[i]).plays.len()
        >= 1 && next.tricks[i].trump == c.suit by {
        if i < before.len() {
            assert(next.tricks[i] == state.tricks[i]);
        }
    }
    assert forall|i: int, j: int|
        0 <= i < next.tricks.len() && 0 <= j < next.tricks[i].plays.len() implies !next.sits_out(
        (#[trigger] next.tricks[i].plays[j]).0,
    ) by {
        if i < before.len() {
            assert(next.tricks[i] == state.tricks[i]);
        } else if j < state.tricks.last().plays.len() {
            assert(trick.plays[j] == state.tricks[state.tricks.len() - 1].plays[j]);
        }
    }
    lemma_count_open_trick(before, state.tricks.last(), state.trick_size, makers);
    lemma_count_open_trick(before, state.tricks.last(), state.trick_size, makers.spec_other());
    assert(before.push(state.tricks.last()) =~= state.tricks);
    if trick.plays.len() < state.trick_size {
        lemma_count_open_trick(before, trick, state.trick_size, makers);
        lemma_count_open_trick(before, trick, state.trick_size, makers.spec_other());
    } else {
        assert forall|i: int| 0 <= i < next.tricks.len() implies (#[trigger] next.tricks[i]).plays.len()
            == next.trick_size by {
            if i < before.len() {
                assert(next.tricks[i] == before[i]);
            }
        }
        crate::trick::lemma_winner_is_earliest_best(trick);
        let taken = RoundView {
            tricks: next.tricks,
            hands: next.hands,
            events: state.events.push(EventView::Trick(trick)),
            ..state
        };
        assert(taken.outcome() == next.outcome());
    }
}

/// When play begins no trick has been played, so the round is undecided,
/// and the seat that leads does not sit out.
proof fn lemma_first_trick(state: RoundView, next: RoundView, maker: Seat, suit: Suit, alone: bool)
    requires
        state.inv(),
        state.tricks.len() == 0,
        state.trick_size == 4,
        next.tricks == state.tricks,
        next.hands.len() == 4,
        next.contract == Some(Contract { maker, suit, alone }),
        next.dealer == state.dealer,
        next.next_action == Some(
            ExpectAction {
                seat: (Contract { maker, suit, alone }).spec_skip_partner(state.dealer.spec_next()),
                action: ActionType::Lead,
            },
        ) && next.trick_size == (Contract { maker, suit, alone }).spec_trick_size()
            || next.next_action == Some(
            ExpectAction { seat: state.dealer, action: ActionType::DealerDiscard },
        ) && next.trick_size == 4,
    ensures
        next.inv(),
{
    assert(spec_count_won(next.tricks, next.trick_size, maker.spec_team()) == 0);
    assert(spec_count_won(next.tricks, next.trick_size, maker.spec_team().spec_other()) == 0);
}

/// A sequence of actions that is accepted throughout leads from a state
/// that play can reach to another such state.
pub proof fn lemma_replay_preserves_inv(state: RoundView, actions: Seq<Action>)
    requires
        state.inv(),
        state.replay(actions) is Ok,
    ensures
        state.replay(actions).unwrap().inv(),
        state.replay(actions).unwrap().dealer == state.dealer,
        state.replay(actions).unwrap().top == state.top,
    decreases actions.len(),
{
    if actions.len() > 0 {
        lemma_replay_preserves_inv(state, actions.drop_last());
        lemma_step_preserves_inv(state.replay(actions.drop_last()).unwrap(), actions.last());
    }
}

/// Where a sequence of actions is accepted throughout, so is every part
/// of it from the start.
pub proof fn lemma_replay_prefix(state: RoundView, actions: Seq<Action>, k: int)
    requires
        0 <= k <= actions.len(),
        state.replay(actions) is Ok,
    ensures
        state.replay(actions.take(k)) is Ok,
    decreases actions.len(),
{
    if k == actions.len() {
        assert(actions.take(k) =~= actions);
    } else {
        assert(actions.drop_last().take(k) =~= actions.take(k));
        lemma_replay_prefix(state, actions.drop_last(), k);
    }
}

/// Replaying a sequence of actions in two parts, the second part from
/// where the first arrived, gives what replaying the whole gives.
pub proof fn lemma_replay_split(state: RoundView, first: Seq<Action>, rest: Seq<Action>)
    ensures
        state.replay(first + rest) == (match state.replay(first) {
            Ok(middle) => middle.replay(rest),
            Err(e) => Err(e),
        }),
    decreases rest.len(),
{
    if rest.len() == 0 {
        assert(first + rest =~= first);
    } else {
        assert((first + rest).drop_last() =~= first + rest.drop_last());
        assert((first + rest).last() == rest.last());
        lemma_replay_split(state, first, rest.drop_last());
    }
}

/// A rejected action changes nothing, so an action tried again from the
/// same state meets the same answer; and what the events hold has no
/// part in what an action does to the table.
pub proof fn lemma_step_ignores_events(a: RoundView, b: RoundView, action: Action)
    requires
        a.same_table(b),
    ensures
        match (a.step(action), b.step(action)) {
            (Ok(x), Ok(y)) => x.same_table(y),
            (Err(e), Err(f)) => e == f,
            _ => false,
        },
{
}

/// An action of the expected seat and kind is refused for its payload
/// exactly when the payload has not the shape that the kind carries: a
/// bid passes or calls, every other action names a card.
pub proof fn lemma_payload_shape(state: RoundView, action: Action)
    requires
        state.next_action == Some(ExpectAction { seat: action.seat, action: action.action }),
    ensures
        state.step(action) == Err::<RoundView, RoundError>(RoundError::InvalidActionData)
            <==> !action.action.spec_accepts(action.data),
{
}

/// A contract is made once: no action changes a contract that stands.
pub proof fn lemma_contract_is_kept(state: RoundView, action: Action)
    requires
        state.inv(),
        state.contract is Some,
        state.step(action) is Ok,
    ensures
        state.step(action).unwrap().contract == state.contract,
{
}

/// The round is over, with no action expected, exactly when its outcome
/// is decided; and an outcome gives one, two or four points.
pub proof fn lemma_over_with_outcome(state: RoundView)
    requires
        state.inv(),
    ensures
        state.next_action is None <==> state.outcome() is Some,
        match state.outcome() {
            Some(outcome) => outcome.points == 1 || outcome.points == 2 || outcome.points == 4,
            None => true,
        },
{
    if state.next_action is Some && state.contract is Some {
        let expect = state.next_action.unwrap();
        if expect.action == ActionType::DealerDiscard {
            let c = state.contract.unwrap();
            assert(spec_count_won(state.tricks, state.trick_size, c.maker.spec_team()) == 0);
            assert(spec_count_won(state.tricks, state.trick_size, c.maker.spec_team().spec_other())
                == 0);
        }
    }
}

/// Once the defenders have taken three tricks the round is over at once:
/// no action is expected any more, however few tricks were played, and
/// the defenders score two points.
pub proof fn lemma_euchred_round_is_over(state: RoundView)
    requires
        state.inv(),
        state.contract is Some,
        state.tricks_view().win_count(state.contract.unwrap().maker.spec_team().spec_other()) >= 3,
    ensures
        state.next_action is None,
        state.outcome() == Some(
            RoundOutcome {
                team: state.contract.unwrap().maker.spec_team().spec_other(),
                points: 2,
            },
        ),
{
}

/// Where the maker goes alone the partner sits out: the partner is never
/// the seat to lead or to follow and has no card in any trick; once play
/// has begun a trick has three cards; and a maker who takes all three
/// tricks of the round scores four points.
pub proof fn lemma_lone_hand(state: RoundView)
    requires
        state.inv(),
        state.contract is Some,
        state.contract.unwrap().alone,
    ensures
        forall|i: int, j: int|
            0 <= i < state.tricks.len() && 0 <= j < state.tricks[i].plays.len() ==> (
            #[trigger] state.tricks[i].plays[j]).0 != state.contract.unwrap().maker.spec_opposite(),
        match state.next_action {
            Some(expect) => (expect.action == ActionType::Lead || expect.action
                == ActionType::Follow) ==> {
                &&& expect.seat != state.contract.unwrap().maker.spec_opposite()
                &&& state.trick_size == 3
            },
            None => state.trick_size == 3,
        },
        state.tricks_view().win_count(state.contract.unwrap().maker.spec_team()) == 3
            ==> state.outcome() == Some(
            RoundOutcome { team: state.contract.unwrap().maker.spec_team(), points: 4 },
        ),
{
    let c = state.contract.unwrap();
    let makers = c.maker.spec_team();
    assert forall|i: int, j: int|
        0 <= i < state.tricks.len() && 0 <= j < state.tricks[i].plays.len() implies (
    #[trigger] state.tricks[i].plays[j]).0 != c.maker.spec_opposite() by {
        assert(!state.sits_out(state.tricks[i].plays[j].0));
    }
    if state.tricks_view().win_count(makers) == 3 {
        lemma_count_bound(state.tricks, state.trick_size, makers);
        lemma_count_bound(state.tricks, state.trick_size, makers.spec_other());
        lemma_makers_sweep(state.tricks, state.trick_size, makers);
    }
}

/// A team that has won as many tricks as there are leaves none to the
/// other team.
pub proof fn lemma_makers_sweep(tricks: Seq<TrickView>, trick_size: int, team: Team)
    requires
        spec_count_won(tricks, trick_size, team) == tricks.len(),
    ensures
        spec_count_won(tricks, trick_size, team.spec_other()) == 0,
    decreases tricks.len(),
{
    if tricks.len() > 0 {
        lemma_count_bound(tricks.drop_last(), trick_size, team);
        lemma_makers_sweep(tricks.drop_last(), trick_size, team);
    }
}

/// A card that does not follow the lead, played from a hand that holds a
/// card that does, is rejected: the seat must follow.
pub proof fn lemma_must_follow(state: RoundView, seat: Seat, card: Card, held: Card)
    requires
        state.next_action == Some(ExpectAction { seat, action: ActionType::Follow }),
        state.hand(seat).contains(card),
        state.hand(seat).contains(held),
        !state.tricks.last().follows(card),
        state.tricks.last().follows(held),
    ensures
        state.step(Action { seat, action: ActionType::Follow, data: ActionData::Card { card } })
            == Err::<RoundView, RoundError>(
            RoundError::Player(PlayerError::MustFollowLead(seat, state.tricks.last().plays[0].1)),
        ),
{
    let hand = state.hand(seat);
    let i = choose|i: int| 0 <= i < hand.len() && hand[i] == held;
    assert(state.tricks.last().follows(hand[i]));
}

} // verus!
