//! Game management.
//!
//! A game consists of a sequence of rounds, by which teams score points. A team wins the
//! game by scoring ten or more points.

use vstd::prelude::*;
use crate::config::{RoundConfig, RoundConfigView};
use crate::action::ExpectAction;
use crate::round::{spec_initial, Event, Round, RoundOutcome, RoundView};
use crate::seat::{Seat, Team};

verus! {

/// A game of euchre.
pub struct Game<R> {
    /// The current round.
    round: R,
    /// The current score of North and South.
    north_south: u8,
    /// The current score of East and West.
    east_west: u8,
    /// The target score.
    target_score: u8,
}

/// The numbers shown on the scoreboard: for each team its score in the
/// game and the tricks it has won in the round.
#[derive(Debug, Clone, Copy, PartialEq, Eq, Structural)]
pub struct Scoreboard {
    pub ns_score: u8,
    pub ew_score: u8,
    pub ns_tricks: u8,
    pub ew_tricks: u8,
}

/// What comes next in a game that one seat plays and robots may play for
/// the others.
#[derive(Debug)]
pub enum Step {
    /// An event has occurred that nobody has taken notice of yet.
    Event(Event),
    /// The round is over, and its outcome stands.
    Outcome(RoundOutcome),
    /// The round waits for the user to act.
    Await(ExpectAction),
    /// The round waits for a seat that a robot plays.
    Robot(ExpectAction),
}

impl<R: Round> Game<R> {
    /// The current round.
    pub closed spec fn spec_round(&self) -> R {
        self.round
    }

    /// The current score of a team.
    pub closed spec fn spec_score(&self, team: Team) -> u8 {
        match team {
            Team::NorthSouth => self.north_south,
            Team::EastWest => self.east_west,
        }
    }

    /// The score that wins the game.
    pub closed spec fn spec_target_score(&self) -> u8 {
        self.target_score
    }

    /// The team that has won the game, if one has reached the target
    /// score; where both have, North and South.
    pub open spec fn spec_winner(&self) -> Option<Team> {
        if self.spec_score(Team::NorthSouth) >= self.spec_target_score() {
            Some(Team::NorthSouth)
        } else if self.spec_score(Team::EastWest) >= self.spec_target_score() {
            Some(Team::EastWest)
        } else {
            None
        }
    }

    /// Whether the current round can be scored: it is over, and the
    /// points of its outcome fit into the score of the team that wins
    /// them.
    pub open spec fn round_is_over(&self) -> bool {
        &&& self.spec_round().wf()
        &&& self.spec_round().state().outcome() is Some
        &&& self.spec_score(self.spec_round().state().outcome().unwrap().team)
            + self.spec_round().state().outcome().unwrap().points <= u8::MAX
    }

    /// Whether the game stands as this one did before a round was
    /// scored: the team that won the round has its points more, the
    /// other team and the target score are as they were.
    pub open spec fn scored_from(&self, before: &Self, outcome: RoundOutcome) -> bool {
        &&& self.spec_score(outcome.team) == before.spec_score(outcome.team) + outcome.points
        &&& self.spec_score(outcome.team.spec_other()) == before.spec_score(
            outcome.team.spec_other(),
        )
        &&& self.spec_target_score() == before.spec_target_score()
    }

    /// Begins a game with the given round: no points yet, and ten points
    /// to win.
    pub fn new(round: R) -> (game: Self)
        ensures
            game.spec_round() == round,
            game.spec_score(Team::NorthSouth) == 0,
            game.spec_score(Team::EastWest) == 0,
            game.spec_target_score() == 10,
    {
        Self { round, north_south: 0, east_west: 0, target_score: 10 }
    }

    /// Begins a game with a round dealt at random.
    pub fn random() -> (game: Self)
        ensures
            game.spec_round().wf(),
            game.spec_score(Team::NorthSouth) == 0,
            game.spec_score(Team::EastWest) == 0,
            game.spec_target_score() == 10,
    {
        Game::new(R::from_config(RoundConfig::random()))
    }

    /// Sets the target score.
    pub fn with_target_score(self, score: u8) -> (game: Self)
        ensures
            game.spec_round() == self.spec_round(),
            game.spec_score(Team::NorthSouth) == self.spec_score(Team::NorthSouth),
            game.spec_score(Team::EastWest) == self.spec_score(Team::EastWest),
            game.spec_target_score() == score,
    {
        let mut game = self;
        game.target_score = score;
        game
    }

    /// Returns an immutable reference to the current round.
    pub fn round(&self) -> (round: &R)
        ensures
            *round == self.spec_round(),
    {
        &self.round
    }

    /// Returns an mutable reference to the current round.
    pub fn round_mut(&mut self) -> (round: &mut R)
        ensures
            *round == old(self).spec_round(),
            final(self).spec_round() == *final(round),
            final(self).spec_score(Team::NorthSouth) == old(self).spec_score(Team::NorthSouth),
            final(self).spec_score(Team::EastWest) == old(self).spec_score(Team::EastWest),
            final(self).spec_target_score() == old(self).spec_target_score(),
    {
        &mut self.round
    }

    /// Returns the winning team, if the game is over.
    pub fn winner(&self) -> (winner: Option<Team>)
        ensures
            winner == self.spec_winner(),
    {
        if self.north_south >= self.target_score {
            Some(Team::NorthSouth)
        } else if self.east_west >= self.target_score {
            Some(Team::EastWest)
        } else {
            None
        }
    }

    /// Returns the score of a team.
    pub fn score(&self, team: Team) -> (score: u8)
        ensures
            score == self.spec_score(team),
    {
        match team {
            Team::NorthSouth => self.north_south,
            Team::EastWest => self.east_west,
        }
    }

    /// Tells what comes next. The oldest event that nobody has taken
    /// notice of comes first, and leaves the queue. Without events, the
    /// outcome of a round that is over comes next. Else the round waits
    /// for an action: of the user, where the seat is the user's or no
    /// robot plays, else of a robot.
    pub fn step(&mut self, human: Seat, autoplay: bool) -> (step: Step)
        requires
            old(self).spec_round().wf(),
        ensures
            final(self).spec_round().wf(),
            final(self).spec_score(Team::NorthSouth) == old(self).spec_score(Team::NorthSouth),
            final(self).spec_score(Team::EastWest) == old(self).spec_score(Team::EastWest),
            final(self).spec_target_score() == old(self).spec_target_score(),
            match step {
                Step::Event(event) => {
                    &&& old(self).spec_round().state().events.len() > 0
                    &&& event@ == old(self).spec_round().state().events[0]
                    &&& final(self).spec_round().state() == (RoundView {
                        events: old(self).spec_round().state().events.drop_first(),
                        ..old(self).spec_round().state()
                    })
                },
                Step::Outcome(outcome) => {
                    &&& old(self).spec_round().state().events.len() == 0
                    &&& old(self).spec_round().state().outcome() == Some(outcome)
                    &&& final(self).spec_round().state() == old(self).spec_round().state()
                },
                Step::Await(expect) => {
                    &&& old(self).spec_round().state().events.len() == 0
                    &&& old(self).spec_round().state().outcome() is None
                    &&& old(self).spec_round().state().next_action == Some(expect)
                    &&& (expect.seat == human || !autoplay)
                    &&& final(self).spec_round().state() == old(self).spec_round().state()
                },
                Step::Robot(expect) => {
                    &&& old(self).spec_round().state().events.len() == 0
                    &&& old(self).spec_round().state().outcome() is None
                    &&& old(self).spec_round().state().next_action == Some(expect)
                    &&& expect.seat != human
                    &&& autoplay
                    &&& final(self).spec_round().state() == old(self).spec_round().state()
                },
            },
    {
        if let Some(event) = self.round.pop_event() {
            return Step::Event(event);
        }
        if let Some(outcome) = self.round.outcome() {
            return Step::Outcome(outcome);
        }
        proof {
            self.round.lemma_wf();
        }
        match self.round.next_action() {
            Some(expect) => {
                if expect.seat == human || !autoplay {
                    Step::Await(expect)
                } else {
                    Step::Robot(expect)
                }
            },
            None => vstd::pervasive::unreached(),
        }
    }

    /// Updates the score from the outcome of the current round, and begins
    /// the given round in its place.
    pub fn next_round_with(&mut self, config: RoundConfig)
        requires
            old(self).round_is_over(),
        ensures
            final(self).scored_from(old(self), old(self).spec_round().state().outcome().unwrap()),
            final(self).spec_round().wf(),
            final(self).spec_round().state() == spec_initial(
                config@.dealer,
                config@.hands,
                config@.top,
            ),
    {
        let outcome = self.round.outcome().unwrap();
        match outcome.team {
            Team::NorthSouth => {
                self.north_south = self.north_south + outcome.points;
            },
            Team::EastWest => {
                self.east_west = self.east_west + outcome.points;
            },
        }
        self.round = R::from_config(config);
    }

    /// Updates the score from the outcome of the current round, and begins a new round. It is the
    /// caller's responsibility to ensure that the current round is finished. The seat after
    /// the dealer of the finished round deals the new one, from a shuffled deck.
    pub fn next_round(&mut self)
        requires
            old(self).round_is_over(),
        ensures
            final(self).scored_from(old(self), old(self).spec_round().state().outcome().unwrap()),
            final(self).spec_round().wf(),
            exists|config: RoundConfigView|
                config.valid() && config.dealer == old(self).spec_round().state().dealer.spec_next()
                    && final(self).spec_round().state() == #[trigger] spec_initial(
                    config.dealer,
                    config.hands,
                    config.top,
                ),
    {
        let dealer = self.round.dealer().next();
        let config = RoundConfig::random_with_dealer(dealer);
        let ghost dealt = config@;
        self.next_round_with(config);
        assert(spec_initial(dealt.dealer, dealt.hands, dealt.top) == self.spec_round().state());
    }
}

impl Scoreboard {
    /// Reads the numbers for the scoreboard off a game.
    pub fn new<R: Round>(game: &Game<R>) -> (board: Self)
        requires
            game.spec_round().wf(),
        ensures
            board.ns_score == game.spec_score(Team::NorthSouth),
            board.ew_score == game.spec_score(Team::EastWest),
            board.ns_tricks == game.spec_round().state().tricks_view().win_count(Team::NorthSouth),
            board.ew_tricks == game.spec_round().state().tricks_view().win_count(Team::EastWest),
    {
        let ns_score = game.score(Team::NorthSouth);
        let ew_score = game.score(Team::EastWest);
        let tricks = game.round().tricks();
        let ns_tricks = tricks.win_count(Team::NorthSouth);
        let ew_tricks = tricks.win_count(Team::EastWest);
        Self { ns_score, ew_score, ns_tricks, ew_tricks }
    }
}

} // verus!
