use euchre::ActionType::{BidOther, BidTop, DealerDiscard, Follow, Lead};
use euchre::Seat::{East, North, South, West};
use euchre::{
    Action, ActionData, ActionType, BaseRound, Card, Contract, Event, ExpectAction, PlayerError,
    Rank, Round, RoundConfig, RoundError, RoundOutcome, Seat, Suit, Team,
};

fn card(s: &str) -> Card {
    Card::from_str(s).unwrap()
}

fn hand(cards: [&str; 5]) -> Vec<Card> {
    cards.iter().map(|s| card(s)).collect()
}

fn cards(cards: &[&str]) -> Vec<Card> {
    cards.iter().map(|s| card(s)).collect()
}

/// North deals; East holds hearts only, West diamonds only, and North and
/// South hold every spade but the nine, which is turned up.
fn spades_config() -> RoundConfig {
    RoundConfig::from_hands(
        Seat::North,
        hand(["js", "jc", "as", "ah", "ad"]),
        hand(["9h", "th", "jh", "qh", "kh"]),
        hand(["ks", "qs", "ts", "ac", "kc"]),
        hand(["9d", "td", "jd", "qd", "kd"]),
        card("9s"),
    )
}

/// North deals and sits out when South plays alone with the five best
/// spades.
fn loner_config() -> RoundConfig {
    RoundConfig::from_hands(
        Seat::North,
        hand(["ah", "ad", "ac", "kc", "qc"]),
        hand(["9h", "th", "jh", "qh", "kh"]),
        hand(["js", "jc", "as", "ks", "qs"]),
        hand(["9d", "td", "jd", "qd", "kd"]),
        card("9s"),
    )
}

fn pass(seat: Seat, action: ActionType) -> Action {
    Action::new(seat, action, ActionData::Pass)
}

fn call(seat: Seat, action: ActionType, suit: Suit, alone: bool) -> Action {
    Action::new(seat, action, ActionData::Call { suit, alone })
}

fn play(seat: Seat, action: ActionType, c: &str) -> Action {
    Action::new(seat, action, ActionData::Card { card: card(c) })
}

fn expect(seat: Seat, action: ActionType) -> Option<ExpectAction> {
    Some(ExpectAction::new(seat, action))
}

fn apply_all(round: &mut BaseRound, actions: &[Action]) {
    for action in actions {
        assert_eq!(round.apply_action(*action), Ok(()), "{:?}", action);
    }
}

fn euchre_actions() -> Vec<Action> {
    vec![
        call(East, BidTop, Suit::Spade, false),
        play(North, DealerDiscard, "ad"),
        play(East, Lead, "9h"),
        play(South, Follow, "ts"),
        play(West, Follow, "9d"),
        play(North, Follow, "ah"),
        play(South, Lead, "ks"),
        play(West, Follow, "td"),
        play(North, Follow, "9s"),
        play(East, Follow, "th"),
        play(South, Lead, "qs"),
        play(West, Follow, "jd"),
        play(North, Follow, "js"),
        play(East, Follow, "jh"),
    ]
}

fn hand_of(round: &BaseRound, seat: Seat) -> Vec<Card> {
    round.player_state(seat).hand.clone()
}

#[test]
fn a_round_begins_with_the_seat_after_the_dealer_bidding() {
    let mut round = BaseRound::from_config(spades_config());
    assert_eq!(round.dealer(), Seat::North);
    assert_eq!(round.top_card(), card("9s"));
    assert_eq!(round.next_action(), expect(Seat::East, ActionType::BidTop));
    assert_eq!(round.contract(), None);
    assert_eq!(round.outcome(), None);
    assert_eq!(round.tricks().len(), 0);
    assert_eq!(round.tricks().trick_size(), 4);
    assert_eq!(hand_of(&round, Seat::West), hand(["9d", "td", "jd", "qd", "kd"]));
    assert!(matches!(round.pop_event(), Some(Event::Deal(Seat::North, c)) if c == card("9s")));
    assert!(round.pop_event().is_none());
}

#[test]
fn passing_goes_round_the_table_and_then_to_the_second_bids() {
    let mut round = BaseRound::from_config(spades_config());
    assert_eq!(round.apply_action(pass(Seat::East, BidTop)), Ok(()));
    assert_eq!(round.next_action(), expect(Seat::South, BidTop));
    assert_eq!(round.apply_action(pass(Seat::South, BidTop)), Ok(()));
    assert_eq!(round.apply_action(pass(Seat::West, BidTop)), Ok(()));
    assert_eq!(round.next_action(), expect(Seat::North, BidTop));
    assert_eq!(round.apply_action(pass(Seat::North, BidTop)), Ok(()));
    assert_eq!(round.next_action(), expect(Seat::East, BidOther));
    assert_eq!(round.apply_action(pass(Seat::East, BidOther)), Ok(()));
    assert_eq!(round.apply_action(pass(Seat::South, BidOther)), Ok(()));
    assert_eq!(round.apply_action(pass(Seat::West, BidOther)), Ok(()));
    assert_eq!(round.next_action(), expect(Seat::North, BidOther));
    assert_eq!(
        round.apply_action(pass(Seat::North, BidOther)),
        Err(RoundError::Player(PlayerError::DealerMustBidOther))
    );
    assert_eq!(round.next_action(), expect(Seat::North, BidOther));
    assert_eq!(
        round.apply_action(call(Seat::North, BidOther, Suit::Spade, false)),
        Err(RoundError::Player(PlayerError::CannotCallTopSuit(Suit::Spade)))
    );
    assert_eq!(round.contract(), None);
    assert_eq!(round.apply_action(call(Seat::North, BidOther, Suit::Heart, false)), Ok(()));
    assert_eq!(
        round.contract(),
        Some(Contract { maker: Seat::North, suit: Suit::Heart, alone: false })
    );
    assert_eq!(round.next_action(), expect(Seat::East, ActionType::Lead));
    assert_eq!(hand_of(&round, Seat::North).len(), 5);
}

#[test]
fn the_wrong_seat_or_action_or_payload_is_refused() {
    let mut round = BaseRound::from_config(spades_config());
    assert_eq!(
        round.apply_action(pass(Seat::South, BidTop)),
        Err(RoundError::ExpectActioned { seat: Seat::East, action: BidTop })
    );
    assert_eq!(
        round.apply_action(pass(Seat::East, BidOther)),
        Err(RoundError::ExpectActioned { seat: Seat::East, action: BidTop })
    );
    assert_eq!(
        round.apply_action(play(Seat::East, BidTop, "9h")),
        Err(RoundError::InvalidActionData)
    );
    assert_eq!(
        round.apply_action(call(Seat::East, BidTop, Suit::Heart, false)),
        Err(RoundError::Player(PlayerError::MustCallTopSuit(Suit::Spade)))
    );
    assert_eq!(round.next_action(), expect(Seat::East, BidTop));
    apply_all(
        &mut round,
        &[call(Seat::East, BidTop, Suit::Spade, false), play(Seat::North, ActionType::DealerDiscard, "ad")],
    );
    assert_eq!(round.apply_action(pass(Seat::East, Lead)), Err(RoundError::InvalidActionData));
    assert_eq!(
        round.apply_action(call(Seat::East, Lead, Suit::Spade, false)),
        Err(RoundError::InvalidActionData)
    );
}

#[test]
fn ordering_up_gives_the_dealer_the_top_card_and_a_discard() {
    let mut round = BaseRound::from_config(spades_config());
    assert_eq!(round.apply_action(call(Seat::East, BidTop, Suit::Spade, false)), Ok(()));
    assert_eq!(round.next_action(), expect(Seat::North, DealerDiscard));
    assert_eq!(hand_of(&round, Seat::North), cards(&["js", "jc", "as", "ah", "ad", "9s"]));
    assert_eq!(
        round.apply_action(play(Seat::North, DealerDiscard, "kd")),
        Err(RoundError::Player(PlayerError::CardNotHeld(Seat::North, card("kd"))))
    );
    assert_eq!(hand_of(&round, Seat::North).len(), 6);
    assert_eq!(round.apply_action(play(Seat::North, DealerDiscard, "ad")), Ok(()));
    assert_eq!(hand_of(&round, Seat::North), cards(&["js", "jc", "as", "ah", "9s"]));
    assert_eq!(round.next_action(), expect(Seat::East, ActionType::Lead));
    assert!(matches!(round.pop_event(), Some(Event::Deal(..))));
    assert!(matches!(
        round.pop_event(),
        Some(Event::Call(Contract { maker: Seat::East, suit: Suit::Spade, alone: false }))
    ));
    assert!(round.pop_event().is_none());
}

#[test]
fn a_card_that_does_not_follow_is_refused_while_the_hand_can_follow() {
    let mut round = BaseRound::from_config(spades_config());
    apply_all(
        &mut round,
        &[
            call(Seat::East, BidTop, Suit::Spade, false),
            play(Seat::North, DealerDiscard, "ad"),
            play(Seat::East, Lead, "9h"),
            play(Seat::South, Follow, "ts"),
            play(Seat::West, Follow, "9d"),
        ],
    );
    let hand_before = hand_of(&round, Seat::North);
    let trick_before = round.tricks().last().unwrap().cards().clone();
    assert_eq!(
        round.apply_action(play(Seat::North, Follow, "js")),
        Err(RoundError::Player(PlayerError::MustFollowLead(Seat::North, card("9h"))))
    );
    assert_eq!(hand_of(&round, Seat::North), hand_before);
    assert_eq!(round.tricks().last().unwrap().cards(), &trick_before);
    assert_eq!(round.tricks().len(), 1);
    assert_eq!(round.next_action(), expect(Seat::North, Follow));
    assert_eq!(
        round.apply_action(play(Seat::North, Follow, "kd")),
        Err(RoundError::Player(PlayerError::CardNotHeld(Seat::North, card("kd"))))
    );
    assert_eq!(round.apply_action(play(Seat::North, Follow, "ah")), Ok(()));
    assert_eq!(round.next_action(), expect(Seat::South, Lead));
}

#[test]
fn three_tricks_for_the_defenders_end_the_round() {
    let mut round = BaseRound::from_config(spades_config());
    let actions = euchre_actions();
    apply_all(&mut round, &actions[..actions.len() - 1]);
    assert_eq!(round.outcome(), None);
    assert_eq!(round.next_action(), expect(Seat::East, ActionType::Follow));
    apply_all(&mut round, &actions[actions.len() - 1..]);
    assert_eq!(round.next_action(), None);
    assert_eq!(round.outcome(), Some(RoundOutcome::new(Team::NorthSouth, 2)));
    assert_eq!(round.tricks().len(), 3);
    assert_eq!(round.tricks().win_count(Team::NorthSouth), 3);
    assert_eq!(round.tricks().win_count(Team::EastWest), 0);
    assert_eq!(hand_of(&round, Seat::East).len(), 2);
    assert_eq!(
        round.apply_action(play(Seat::North, ActionType::Lead, "jc")),
        Err(RoundError::RoundOver)
    );
    let mut events = vec![];
    while let Some(event) = round.pop_event() {
        events.push(event);
    }
    assert_eq!(events.len(), 6);
    assert!(matches!(events[0], Event::Deal(..)));
    assert!(matches!(events[1], Event::Call(..)));
    assert!(matches!(&events[2], Event::Trick(t) if t.best().0 == Seat::South));
    assert!(matches!(&events[3], Event::Trick(t) if t.best().0 == Seat::South));
    assert!(matches!(&events[4], Event::Trick(t) if t.best() == (Seat::North, card("js"))));
    assert!(matches!(
        events[5],
        Event::Round(RoundOutcome { team: Team::NorthSouth, points: 2 })
    ));
}

#[test]
fn a_maker_who_plays_alone_and_takes_three_tricks_scores_four() {
    let mut round = BaseRound::from_config(loner_config());
    let actions = [
        pass(East, BidTop),
        call(South, BidTop, Suit::Spade, true),
        play(East, Lead, "9h"),
        play(South, Follow, "qs"),
        play(West, Follow, "9d"),
        play(South, Lead, "ks"),
        play(West, Follow, "td"),
        play(East, Follow, "th"),
        play(South, Lead, "as"),
        play(West, Follow, "qd"),
        play(East, Follow, "jh"),
    ];
    for action in actions {
        let next = round.next_action().unwrap();
        if matches!(next.action, Lead | Follow) {
            assert_ne!(next.seat, Seat::North);
        }
        assert_eq!(round.apply_action(action), Ok(()), "{:?}", action);
    }
    assert_eq!(round.tricks().trick_size(), 3);
    assert_eq!(round.tricks().len(), 3);
    for i in 0..3 {
        let trick = round.tricks().get(i).unwrap();
        assert_eq!(trick.len(), 3);
        assert_eq!(trick.get_card(Seat::North), None);
        assert_eq!(trick.best().0, South);
    }
    assert_eq!(round.next_action(), None);
    assert_eq!(round.outcome(), Some(RoundOutcome::new(Team::NorthSouth, 4)));
    // The dealer keeps the top card and never discards.
    assert_eq!(hand_of(&round, Seat::North).len(), 6);
}

#[test]
fn the_dealer_who_plays_alone_still_discards() {
    let mut round = BaseRound::from_config(spades_config());
    apply_all(
        &mut round,
        &[
            pass(Seat::East, BidTop),
            pass(Seat::South, BidTop),
            pass(Seat::West, BidTop),
            call(Seat::North, BidTop, Suit::Spade, true),
        ],
    );
    assert_eq!(round.next_action(), expect(Seat::North, DealerDiscard));
    assert_eq!(round.tricks().trick_size(), 4);
    apply_all(&mut round, &[play(Seat::North, DealerDiscard, "ad")]);
    assert_eq!(round.tricks().trick_size(), 3);
    assert_eq!(round.next_action(), expect(Seat::East, Lead));
    apply_all(&mut round, &[play(Seat::East, Lead, "9h")]);
    // South sits out: the turn passes from East to West.
    assert_eq!(round.next_action(), expect(Seat::West, ActionType::Follow));
}

#[test]
fn the_first_lead_passes_over_a_partner_who_sits_out() {
    let mut round = BaseRound::from_config(spades_config());
    apply_all(
        &mut round,
        &[
            pass(Seat::East, BidTop),
            pass(Seat::South, BidTop),
            pass(Seat::West, BidTop),
            pass(Seat::North, BidTop),
            pass(Seat::East, BidOther),
            pass(Seat::South, BidOther),
            call(Seat::West, BidOther, Suit::Diamond, true),
        ],
    );
    // East, the partner of West, would lead; South leads instead.
    assert_eq!(round.next_action(), expect(Seat::South, ActionType::Lead));
    assert_eq!(round.tricks().trick_size(), 3);
}

#[test]
fn makers_who_take_all_five_tricks_score_two() {
    let mut round = BaseRound::from_config(loner_config());
    let actions = [
        pass(East, BidTop),
        pass(South, BidTop),
        pass(West, BidTop),
        pass(North, BidTop),
        pass(East, BidOther),
        call(South, BidOther, Suit::Club, false),
        // East leads; South holds the left bower of spades as a plain club jack.
        play(East, Lead, "9h"),
        play(South, Follow, "jc"),
        play(West, Follow, "9d"),
        play(North, Follow, "ah"),
        play(South, Lead, "js"),
        play(West, Follow, "td"),
        play(North, Follow, "qc"),
        play(East, Follow, "th"),
        play(South, Lead, "as"),
        play(West, Follow, "jd"),
        play(North, Follow, "kc"),
        play(East, Follow, "jh"),
        play(North, Lead, "ac"),
        play(East, Follow, "qh"),
        play(South, Follow, "ks"),
        play(West, Follow, "qd"),
        play(North, Lead, "ad"),
        play(East, Follow, "kh"),
        play(South, Follow, "qs"),
    ];
    for action in actions {
        assert_eq!(round.apply_action(action), Ok(()), "{:?}", action);
    }
    assert_eq!(round.outcome(), None);
    assert_eq!(round.next_action(), expect(West, Follow));
    assert_eq!(round.apply_action(play(West, Follow, "kd")), Ok(()));
    assert_eq!(round.tricks().len(), 5);
    assert_eq!(round.tricks().win_count(Team::NorthSouth), 5);
    assert_eq!(round.next_action(), None);
    assert_eq!(round.outcome(), Some(RoundOutcome::new(Team::NorthSouth, 2)));
}

/// North deals; East holds the three best spades that are left once the
/// ace went to West and the jack of clubs to South.
fn mixed_config() -> RoundConfig {
    RoundConfig::from_hands(
        Seat::North,
        hand(["ah", "kh", "ac", "ad", "9d"]),
        hand(["js", "qs", "ks", "9h", "th"]),
        hand(["jc", "ts", "qh", "jh", "td"]),
        hand(["as", "kc", "qc", "kd", "qd"]),
        card("9s"),
    )
}

#[test]
fn makers_who_take_three_of_five_tricks_score_one() {
    let mut round = BaseRound::from_config(mixed_config());
    let actions = [
        call(East, BidTop, Suit::Spade, false),
        play(North, DealerDiscard, "9d"),
        play(East, Lead, "9h"),
        play(South, Follow, "jh"),
        play(West, Follow, "qd"),
        play(North, Follow, "ah"),
        play(North, Lead, "kh"),
        play(East, Follow, "th"),
        play(South, Follow, "qh"),
        play(West, Follow, "kd"),
        play(North, Lead, "ac"),
        play(East, Follow, "ks"),
        play(South, Follow, "td"),
        play(West, Follow, "qc"),
        play(East, Lead, "js"),
        play(South, Follow, "jc"),
        play(West, Follow, "as"),
        play(North, Follow, "9s"),
        play(East, Lead, "qs"),
        play(South, Follow, "ts"),
        play(West, Follow, "kc"),
    ];
    for action in actions {
        assert_eq!(round.apply_action(action), Ok(()), "{:?}", action);
        assert_eq!(round.outcome(), None);
    }
    assert_eq!(round.tricks().win_count(Team::NorthSouth), 2);
    assert_eq!(round.tricks().win_count(Team::EastWest), 2);
    assert_eq!(round.apply_action(play(North, Follow, "ad")), Ok(()));
    assert_eq!(round.tricks().win_count(Team::EastWest), 3);
    assert_eq!(round.outcome(), Some(RoundOutcome::new(Team::EastWest, 1)));
    assert_eq!(round.next_action(), None);
}

#[test]
fn the_jack_of_the_other_black_suit_must_follow_a_spade() {
    let mut round = BaseRound::from_config(mixed_config());
    apply_all(
        &mut round,
        &[
            call(East, BidTop, Suit::Spade, false),
            play(North, DealerDiscard, "9d"),
            play(East, Lead, "qs"),
        ],
    );
    // South holds the ten of spades and the jack of clubs: both follow.
    assert_eq!(
        round.apply_action(play(South, Follow, "td")),
        Err(RoundError::Player(PlayerError::MustFollowLead(South, card("qs"))))
    );
    assert_eq!(round.apply_action(play(South, Follow, "jc")), Ok(()));
    assert_eq!(round.tricks().last().unwrap().best(), (South, card("jc")));
}

#[test]
fn the_hand_is_sorted_by_suit_and_then_under_trump() {
    let mut round = BaseRound::from_config(spades_config());
    let state = round.player_state(Seat::North);
    // Clubs, diamonds, spades, hearts; within a suit by rank.
    assert_eq!(state.sorted_hand(), cards(&["jc", "ad", "js", "as", "ah"]));
    assert_eq!(state.current_trick().map(|t| t.len()), None);
    apply_all(&mut round, &[call(Seat::East, ActionType::BidTop, Suit::Spade, false)]);
    let state = round.player_state(Seat::North);
    // Under spades the jack of clubs is a spade, second only to the jack of spades.
    assert_eq!(state.sorted_hand(), cards(&["ad", "9s", "as", "jc", "js", "ah"]));
    assert_eq!(state.seat, Seat::North);
    assert_eq!(state.dealer, Seat::North);
    assert_eq!(state.top, Card::new(Rank::Nine, Suit::Spade));
}

#[test]
fn an_outcome_is_written_with_team_and_points() {
    assert_eq!(RoundOutcome::new(Team::NorthSouth, 2).to_string(), "North/South wins 2 points");
    assert_eq!(RoundOutcome::new(Team::EastWest, 4).to_string(), "East/West wins 4 points");
    assert_eq!(RoundOutcome::new(Team::EastWest, 0).to_string(), "East/West wins 0 points");
    assert_eq!(RoundOutcome::new(Team::EastWest, 10).to_string(), "East/West wins 10 points");
    assert_eq!(RoundOutcome::new(Team::EastWest, 255).to_string(), "East/West wins 255 points");
    assert_eq!(euchre::text::decimal(4_294_967_295), "4294967295");
    assert_eq!(euchre::text::decimal(1_000), "1000");
    assert_eq!(euchre::text::decimal(7), "7");
}

#[test]
fn a_seat_counts_the_tricks_of_each_team() {
    let mut round = BaseRound::from_config(spades_config());
    assert_eq!(round.player_state(East).trick_counts(), (0, 0));
    let actions = euchre_actions();
    apply_all(&mut round, &actions[..7]);
    // One trick is complete, the second has its lead.
    assert_eq!(round.player_state(East).trick_counts(), (1, 0));
    apply_all(&mut round, &actions[7..]);
    assert_eq!(round.player_state(West).trick_counts(), (3, 0));
}
