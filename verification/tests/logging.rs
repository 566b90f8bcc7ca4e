use euchre::ActionType::{BidOther, BidTop, DealerDiscard, Follow, Lead};
use euchre::Seat::{East, North, South, West};
use euchre::{
    Action, ActionData, ActionNode, ActionType, BaseRound, Card, Contract, Event, ExpectAction,
    Log, LoggingRound, RawLog, Round, RoundConfig, RoundError, PlayerError, Seat, Suit,
};

fn card(s: &str) -> Card {
    Card::from_str(s).unwrap()
}

fn hand(cards: [&str; 5]) -> Vec<Card> {
    cards.iter().map(|s| card(s)).collect()
}

fn config() -> RoundConfig {
    RoundConfig::from_hands(
        North,
        hand(["ah", "kh", "ac", "ad", "9d"]),
        hand(["js", "qs", "ks", "9h", "th"]),
        hand(["jc", "ts", "qh", "jh", "td"]),
        hand(["as", "kc", "qc", "kd", "qd"]),
        card("9s"),
    )
}

fn pass(seat: Seat, action: ActionType) -> Action {
    Action::new(seat, action, ActionData::Pass)
}

fn call(seat: Seat, action: ActionType, suit: Suit, alone: bool) -> Action {
    Action::new(seat, action, ActionData::Call { suit, alone })
}

fn play(seat: Seat, action: ActionType, c: &str) -> Action {
    Action::new(seat, action, ActionData::Card { card: card(c) })
}

fn actions() -> Vec<Action> {
    vec![
        call(East, BidTop, Suit::Spade, false),
        play(North, DealerDiscard, "9d"),
        play(East, Lead, "9h"),
        play(South, Follow, "jh"),
        play(West, Follow, "qd"),
        play(North, Follow, "ah"),
        play(North, Lead, "kh"),
        play(East, Follow, "th"),
        play(South, Follow, "qh"),
        play(West, Follow, "kd"),
        play(North, Lead, "ac"),
        play(East, Follow, "ks"),
        play(South, Follow, "td"),
        play(West, Follow, "qc"),
        play(East, Lead, "js"),
        play(South, Follow, "jc"),
        play(West, Follow, "as"),
        play(North, Follow, "9s"),
        play(East, Lead, "qs"),
        play(South, Follow, "ts"),
        play(West, Follow, "kc"),
        play(North, Follow, "ad"),
    ]
}

type Table = (
    Vec<Vec<Card>>,
    Option<Contract>,
    Vec<Vec<(Seat, Card)>>,
    usize,
    Option<ExpectAction>,
);

/// Hands, contract, tricks and the action expected.
fn table<R: Round>(round: &R) -> Table {
    let hands = Seat::all_seats().iter().map(|s| round.player_state(*s).hand.clone()).collect();
    let tricks = round.tricks();
    let played = (0..tricks.len()).map(|i| tricks.get(i).unwrap().cards().clone()).collect();
    (hands, round.contract(), played, tricks.trick_size(), round.next_action())
}

#[test]
fn the_cursor_follows_the_actions() {
    let mut round = LoggingRound::from_config(config());
    assert_eq!(round.cursor(), None);
    assert!(round.backtrace().is_empty());
    for (i, action) in actions().into_iter().enumerate() {
        assert_eq!(round.apply_action(action), Ok(()));
        assert_eq!(round.cursor(), Some(i as u32));
    }
    assert_eq!(round.log().len(), 22);
    assert_eq!(round.next_action(), None);
    let trace: Vec<Action> = round.backtrace().into_iter().map(|step| step.1).collect();
    assert_eq!(trace, actions());
    assert_eq!(round.log().backtrace(21).unwrap(), round.backtrace());
}

#[test]
fn a_rejected_action_is_not_recorded() {
    let mut round = LoggingRound::from_config(config());
    assert_eq!(
        round.apply_action(call(East, BidTop, Suit::Heart, false)),
        Err(RoundError::Player(PlayerError::MustCallTopSuit(Suit::Spade)))
    );
    assert_eq!(
        round.apply_action(pass(South, BidTop)),
        Err(RoundError::ExpectActioned { seat: East, action: BidTop })
    );
    assert_eq!(round.cursor(), None);
    assert_eq!(round.log().len(), 0);
    assert_eq!(round.apply_action(pass(East, BidTop)), Ok(()));
    assert_eq!(round.cursor(), Some(0));
    assert_eq!(round.apply_action(play(South, BidTop, "jc")), Err(RoundError::InvalidActionData));
    assert_eq!(round.cursor(), Some(0));
    assert_eq!(round.log().len(), 1);
}

#[test]
fn seeking_and_replaying_leads_where_playing_led() {
    let all = actions();
    let mut direct = BaseRound::from_config(config());
    for action in &all {
        assert_eq!(direct.apply_action(*action), Ok(()));
    }
    let end = table(&direct);
    for k in 0..=all.len() {
        let mut round = LoggingRound::from_config(config());
        for action in &all {
            assert_eq!(round.apply_action(*action), Ok(()));
        }
        let target = if k == 0 { None } else { Some(k as u32 - 1) };
        assert_eq!(round.seek(target), Ok(()));
        assert_eq!(round.cursor(), target);
        let mut partial = BaseRound::from_config(config());
        for action in &all[..k] {
            assert_eq!(partial.apply_action(*action), Ok(()));
        }
        assert_eq!(table(&round), table(&partial));
        for action in &all[k..] {
            assert_eq!(round.apply_action(*action), Ok(()));
        }
        assert_eq!(table(&round), end);
        // Replaying takes the nodes that are there: the log has not grown.
        assert_eq!(round.cursor(), Some(21));
        assert_eq!(round.log().len(), 22);
    }
}

#[test]
fn another_action_from_an_earlier_point_opens_a_branch() {
    let all = actions();
    let mut round = LoggingRound::from_config(config());
    for action in &all[..3] {
        assert_eq!(round.apply_action(*action), Ok(()));
    }
    assert_eq!(round.seek(Some(1)), Ok(()));
    assert_eq!(round.next_action(), Some(ExpectAction::new(East, Lead)));
    assert_eq!(round.apply_action(play(East, Lead, "th")), Ok(()));
    assert_eq!(round.cursor(), Some(3));
    assert_eq!(round.seek(Some(1)), Ok(()));
    assert_eq!(round.apply_action(play(East, Lead, "9h")), Ok(()));
    assert_eq!(round.cursor(), Some(2));
    let walk: Vec<_> = round
        .log()
        .traverse()
        .iter()
        .map(|n| (n.id, n.parent, n.sibling, n.last_sibling, n.leaf))
        .collect();
    assert_eq!(
        walk,
        vec![
            (0, None, false, false, false),
            (1, Some(0), false, false, false),
            (2, Some(1), true, false, true),
            (3, Some(1), true, true, true),
        ]
    );
}

#[test]
fn restart_goes_back_to_the_deal() {
    let mut round = LoggingRound::from_config(config());
    for action in &actions()[..7] {
        assert_eq!(round.apply_action(*action), Ok(()));
    }
    let fresh = table(&BaseRound::from_config(config()));
    round.restart();
    assert_eq!(round.cursor(), None);
    assert_eq!(table(&round), fresh);
    assert_eq!(round.log().len(), 7);
    assert!(matches!(round.pop_event(), Some(Event::Deal(North, c)) if c == card("9s")));
    assert!(round.pop_event().is_none());
    assert_eq!(round.seek(None), Ok(()));
    assert_eq!(table(&round), fresh);
}

#[test]
fn seeking_an_unknown_id_fails_and_restarts() {
    let mut round = LoggingRound::from_config(config());
    for action in &actions()[..7] {
        assert_eq!(round.apply_action(*action), Ok(()));
    }
    assert_eq!(round.seek(Some(7)), Err(RoundError::InvalidLogId(7)));
    assert_eq!(round.cursor(), None);
    assert_eq!(table(&round), table(&BaseRound::from_config(config())));
    assert_eq!(round.seek(Some(6)), Ok(()));
    assert_eq!(round.cursor(), Some(6));
}

#[test]
fn seeking_along_actions_that_the_rules_reject_ends_at_the_first() {
    let raw = RawLog::new(
        config(),
        vec![
            ActionNode { id: 0, parent: None, action: pass(East, BidTop) },
            ActionNode { id: 1, parent: Some(0), action: pass(South, BidTop) },
            ActionNode { id: 2, parent: Some(1), action: pass(North, BidTop) },
            ActionNode { id: 3, parent: Some(2), action: pass(East, BidOther) },
        ],
    );
    let mut round = LoggingRound::from_log(raw.into_log());
    assert_eq!(round.cursor(), None);
    assert_eq!(
        round.seek(Some(3)),
        Err(RoundError::ExpectActioned { seat: West, action: BidTop })
    );
    assert_eq!(round.cursor(), Some(1));
    assert_eq!(round.next_action(), Some(ExpectAction::new(West, BidTop)));
    assert_eq!(round.apply_action(pass(West, BidTop)), Ok(()));
    assert_eq!(round.cursor(), Some(4));
    assert_eq!(round.log().backtrace(4).unwrap().len(), 3);
}

#[test]
fn a_round_comes_back_from_its_persisted_log() {
    let mut round = LoggingRound::from_config(config());
    for action in &actions() {
        assert_eq!(round.apply_action(*action), Ok(()));
    }
    let end = table(&round);
    let raw = round.to_raw();
    assert_eq!(raw.config().validate(), Ok(()));
    assert_eq!(raw.config().hand(North), &hand(["ah", "kh", "ac", "ad", "9d"]));
    let mut back = LoggingRound::from_log(raw.into_log());
    assert_eq!(back.seek(Some(21)), Ok(()));
    assert_eq!(table(&back), end);
    let log: &Log = back.log();
    assert_eq!(log.config().dealer(), North);
    assert_eq!(log.action_nodes().len(), 22);
}

#[test]
fn a_log_without_an_id_left_takes_no_new_action() {
    let raw = RawLog::new(
        config(),
        vec![ActionNode { id: u32::MAX - 1, parent: None, action: pass(East, BidTop) }],
    );
    assert!(raw.fits());
    let log = raw.into_log();
    assert!(!log.has_room());
    let mut round = LoggingRound::from_log(log.clone());
    // The action that the log holds is taken from it.
    assert_eq!(round.apply_action(pass(East, BidTop)), Ok(()));
    assert_eq!(round.cursor(), Some(u32::MAX - 1));
    let before = table(&round);
    assert_eq!(round.apply_action(pass(South, BidTop)), Err(RoundError::InvalidLogId(u32::MAX)));
    assert_eq!(round.cursor(), Some(u32::MAX - 1));
    assert_eq!(table(&round), before);
    assert_eq!(round.log().len(), 1);
    assert_eq!(log.len(), 1);
    // What the rules reject is still rejected by the rules.
    assert_eq!(
        round.apply_action(pass(West, BidTop)),
        Err(RoundError::InvalidLogId(u32::MAX))
    );
}

#[test]
fn a_random_round_with_a_log_begins_at_the_deal() {
    let round = LoggingRound::random_with_dealer(West);
    assert_eq!(round.dealer(), West);
    assert_eq!(round.cursor(), None);
    assert_eq!(round.log().len(), 0);
    assert_eq!(round.log().config().validate(), Ok(()));
    assert_eq!(round.next_action(), Some(ExpectAction::new(North, BidTop)));
    let round = LoggingRound::random();
    assert_eq!(round.next_action().map(|e| e.seat), Some(round.dealer().next()));
    let round = BaseRound::random();
    assert_eq!(round.next_action().map(|e| e.action), Some(BidTop));
}
