use euchre::ActionType::{BidTop, DealerDiscard, Follow, Lead};
use euchre::Seat::{East, North, South, West};
use euchre::robot::play_as_robot;
use euchre::{
    Action, ActionData, ActionType, BaseRound, Card, Event, ExpectAction, Game, LoggingRound,
    Robot, Round, RoundConfig, RoundError, RoundOutcome, Scoreboard, Seat, Step, Suit, Team,
};

fn card(s: &str) -> Card {
    Card::from_str(s).unwrap()
}

fn hand(cards: [&str; 5]) -> Vec<Card> {
    cards.iter().map(|s| card(s)).collect()
}

fn config() -> RoundConfig {
    RoundConfig::from_hands(
        North,
        hand(["js", "jc", "as", "ah", "ad"]),
        hand(["9h", "th", "jh", "qh", "kh"]),
        hand(["ks", "qs", "ts", "ac", "kc"]),
        hand(["9d", "td", "jd", "qd", "kd"]),
        card("9s"),
    )
}

fn call(seat: Seat, action: ActionType, suit: Suit, alone: bool) -> Action {
    Action::new(seat, action, ActionData::Call { suit, alone })
}

fn play(seat: Seat, action: ActionType, c: &str) -> Action {
    Action::new(seat, action, ActionData::Card { card: card(c) })
}

fn euchre_actions() -> Vec<Action> {
    vec![
        call(East, BidTop, Suit::Spade, false),
        play(North, DealerDiscard, "ad"),
        play(East, Lead, "9h"),
        play(South, Follow, "ts"),
        play(West, Follow, "9d"),
        play(North, Follow, "ah"),
        play(South, Lead, "ks"),
        play(West, Follow, "td"),
        play(North, Follow, "9s"),
        play(East, Follow, "th"),
        play(South, Lead, "qs"),
        play(West, Follow, "jd"),
        play(North, Follow, "js"),
        play(East, Follow, "jh"),
    ]
}

#[test]
fn a_game_begins_without_points() {
    let game = Game::new(BaseRound::from_config(config()));
    assert_eq!(game.score(Team::NorthSouth), 0);
    assert_eq!(game.score(Team::EastWest), 0);
    assert_eq!(game.winner(), None);
    assert_eq!(game.round().dealer(), North);
    let game = game.with_target_score(0);
    assert_eq!(game.winner(), Some(Team::NorthSouth));
}

#[test]
fn the_points_of_a_round_go_to_its_winner() {
    let mut game = Game::new(LoggingRound::from_config(config())).with_target_score(4);
    for action in euchre_actions() {
        assert_eq!(game.round_mut().apply_action(action), Ok(()));
    }
    let board = Scoreboard::new(&game);
    assert_eq!(board, Scoreboard { ns_score: 0, ew_score: 0, ns_tricks: 3, ew_tricks: 0 });
    game.next_round_with(config());
    assert_eq!(game.score(Team::NorthSouth), 2);
    assert_eq!(game.score(Team::EastWest), 0);
    assert_eq!(game.winner(), None);
    assert_eq!(game.round().cursor(), None);
    assert_eq!(game.round().log().len(), 0);
    for action in euchre_actions() {
        assert_eq!(game.round_mut().apply_action(action), Ok(()));
    }
    game.next_round();
    assert_eq!(game.score(Team::NorthSouth), 4);
    assert_eq!(game.winner(), Some(Team::NorthSouth));
    // The deal passes on to the next seat.
    assert_eq!(game.round().dealer(), East);
    assert_eq!(game.round().next_action().map(|e| e.seat), Some(South));
    let board = Scoreboard::new(&game);
    assert_eq!(board, Scoreboard { ns_score: 4, ew_score: 0, ns_tricks: 0, ew_tricks: 0 });
}

#[test]
fn a_random_game_begins_with_bids() {
    let game: Game<BaseRound> = Game::random();
    let round = game.round();
    assert_eq!(round.next_action().map(|e| (e.seat, e.action)), Some((round.dealer().next(), BidTop)));
    assert_eq!(round.player_state(West).hand.len(), 5);
    assert_eq!(game.score(Team::EastWest), 0);
}

#[test]
fn a_game_tells_what_comes_next() {
    let mut game = Game::new(BaseRound::from_config(config()));
    assert!(matches!(game.step(South, true), Step::Event(Event::Deal(North, _))));
    // East bids first: a robot where robots play, else the user.
    let expect = ExpectAction::new(East, BidTop);
    assert!(matches!(game.step(South, true), Step::Robot(e) if e == expect));
    assert!(matches!(game.step(South, false), Step::Await(e) if e == expect));
    assert!(matches!(game.step(East, true), Step::Await(e) if e == expect));
    for action in euchre_actions() {
        assert_eq!(game.round_mut().apply_action(action), Ok(()));
    }
    let mut events = 0;
    while let Step::Event(_) = game.step(South, true) {
        events += 1;
    }
    assert_eq!(events, 5);
    let outcome = RoundOutcome::new(Team::NorthSouth, 2);
    assert!(matches!(game.step(South, true), Step::Outcome(o) if o == outcome));
    assert!(matches!(game.step(South, false), Step::Outcome(o) if o == outcome));
}

#[test]
fn a_robot_takes_its_turn() {
    let robot = Robot::default();
    let mut round = BaseRound::from_config(config());
    let mut turns = 0;
    loop {
        let expect = round.next_action();
        match play_as_robot(&mut round, &robot) {
            Ok(action) => {
                assert_eq!(Some(ExpectAction::new(action.seat, action.action)), expect);
                turns += 1;
            }
            Err(e) => {
                assert_eq!(e, RoundError::RoundOver);
                break;
            }
        }
    }
    assert!(turns >= 2 + 12);
    assert!(round.outcome().is_some());
    // A seat without cards is not asked.
    let empty = RoundConfig::from_hands(North, vec![], vec![], vec![], vec![], card("9s"));
    let mut round = BaseRound::from_config(empty);
    assert_eq!(play_as_robot(&mut round, &robot), Err(RoundError::InvalidHandSize));
    assert_eq!(round.next_action(), Some(ExpectAction::new(East, BidTop)));
}
