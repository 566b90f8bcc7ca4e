use euchre::player::can_act;
use euchre::robot::{
    bid_other, bid_top, card_score, dealer_discard, discard, find_short_ace, first_pick,
    follow_trick, group_of_suit, last_pick, lead_trick, least_valuable, most_valuable, Hand, Pick,
};
use euchre::{
    Action, ActionData, ActionType, BaseRound, Card, Contract, Player, PlayerState, Robot, Round,
    RoundConfig, Seat, Suit, Trick, Tricks,
};

fn card(s: &str) -> Card {
    Card::from_str(s).unwrap()
}

fn cards(cards: &[&str]) -> Vec<Card> {
    cards.iter().map(|s| card(s)).collect()
}

fn state<'a>(
    seat: Seat,
    dealer: Seat,
    top: &str,
    contract: Option<Contract>,
    hand: &'a Vec<Card>,
    tricks: &'a Tricks,
) -> PlayerState<'a> {
    PlayerState::new(seat, dealer, card(top), contract, hand, tricks)
}

#[test]
fn the_score_of_a_hand() {
    assert_eq!(card_score(card("js"), Suit::Spade), 3);
    assert_eq!(card_score(card("jc"), Suit::Spade), 3);
    assert_eq!(card_score(card("9s"), Suit::Spade), 2);
    assert_eq!(card_score(card("ah"), Suit::Spade), 1);
    assert_eq!(card_score(card("kh"), Suit::Spade), 0);
    // Two jacks, the ace of trump and an ace beside: 3 + 3 + 2 + 1, and
    // two suits that the hand is void of.
    let hand = Hand::new(cards(&["js", "jc", "as", "ah", "kh"]), Suit::Spade);
    assert_eq!(hand.num_suits(), 2);
    assert_eq!(hand.z_score(None), 11);
    assert_eq!(hand.z_score(Some(card("9s"))), 9);
    assert_eq!(hand.z_score(Some(card("js"))), 8);
    // Under diamonds the same hand has an ace and three suits.
    let hand = Hand::new(cards(&["js", "jc", "as", "ah", "kh"]), Suit::Diamond);
    assert_eq!(hand.num_suits(), 3);
    assert_eq!(hand.z_score(None), 3);
    assert_eq!(hand.z_score(Some(card("jd"))), 0);
    assert_eq!(hand.len(), 5);
}

#[test]
fn cards_by_suit_and_by_worth() {
    let hand = cards(&["js", "jc", "as", "ah", "kh"]);
    assert_eq!(group_of_suit(&hand, Suit::Spade, Suit::Spade), cards(&["js", "jc", "as"]));
    assert_eq!(group_of_suit(&hand, Suit::Spade, Suit::Club), cards(&[]));
    assert_eq!(group_of_suit(&hand, Suit::Heart, Suit::Club), cards(&["jc"]));
    assert_eq!(least_valuable(hand.clone(), Suit::Spade), card("kh"));
    assert_eq!(most_valuable(hand.clone(), Suit::Spade), card("js"));
    assert_eq!(most_valuable(hand.clone(), Suit::Club), card("jc"));
    assert_eq!(least_valuable(cards(&["9s"]), Suit::Club), card("9s"));
    let mut rest = hand.clone();
    assert_eq!(discard(&mut rest, card("as")), Some(card("as")));
    assert_eq!(rest, cards(&["js", "jc", "ah", "kh"]));
    assert_eq!(discard(&mut rest, card("as")), None);
    assert_eq!(rest.len(), 4);
}

#[test]
fn a_hand_gives_up_its_cards() {
    let mut hand = Hand::new(cards(&["ks", "9h", "as"]), Suit::Heart);
    hand.push(card("jd"));
    hand.sort();
    assert_eq!(hand.cards(), &cards(&["ks", "as", "9h", "jd"]));
    assert_eq!(hand.discard(card("td")), None);
    assert_eq!(hand.discard(card("as")), Some(card("as")));
    assert_eq!(hand.must_discard(card("jd")), card("jd"));
    assert_eq!(hand.discard_first(), Some(card("ks")));
    assert_eq!(hand.must_discard_first(), card("9h"));
    assert_eq!(hand.discard_first(), None);
    assert_eq!(hand.copy().len(), 0);
}

#[test]
fn the_dealer_discards_to_be_void_of_a_suit() {
    // The ten of clubs stands alone in its suit.
    let mut hand = Hand::new(cards(&["js", "9s", "ah", "kh", "tc", "qh"]), Suit::Spade);
    assert_eq!(hand.dealer_discard(), card("tc"));
    assert_eq!(hand.len(), 5);
    // No card stands alone; the king stands beside an ace.
    let mut hand = Hand::new(cards(&["js", "9s", "ah", "kh", "ts", "qs"]), Suit::Spade);
    assert_eq!(hand.dealer_discard(), card("kh"));
    // Neither: the card that is worth least goes.
    let mut hand = Hand::new(cards(&["js", "9s", "ts", "qs", "ks", "as"]), Suit::Spade);
    assert_eq!(hand.dealer_discard(), card("9s"));
    assert_eq!(hand.cards(), &cards(&["ts", "qs", "ks", "as", "js"]));
}

#[test]
fn the_robot_bids_on_a_strong_hand() {
    let tricks = Tricks::default();
    let strong = cards(&["js", "jc", "as", "ah", "kh"]);
    let weak = cards(&["9d", "td", "9h", "th", "9c"]);
    // East, against the dealer: the top card goes to the other side.
    let s = state(Seat::East, Seat::North, "9s", None, &strong, &tricks);
    assert!(can_act(&s, ActionType::BidTop));
    assert_eq!(bid_top(&s), ActionData::Call { suit: Suit::Spade, alone: false });
    // South, the partner of the dealer, leaves the top card aside and plays alone.
    let s = state(Seat::South, Seat::North, "9s", None, &strong, &tricks);
    assert_eq!(bid_top(&s), ActionData::Call { suit: Suit::Spade, alone: true });
    let s = state(Seat::East, Seat::North, "9s", None, &weak, &tricks);
    assert_eq!(bid_top(&s), ActionData::Pass);
    let s = state(Seat::North, Seat::North, "9s", None, &weak, &tricks);
    assert_eq!(bid_top(&s), ActionData::Pass);
}

#[test]
fn the_robot_calls_another_suit_or_passes() {
    let tricks = Tricks::default();
    let strong = cards(&["js", "jc", "as", "ah", "kh"]);
    let weak = cards(&["9d", "td", "9h", "th", "9c"]);
    let s = state(Seat::East, Seat::North, "9d", None, &strong, &tricks);
    assert!(can_act(&s, ActionType::BidOther));
    // Clubs come first and are strong enough: both jacks and two voids.
    assert_eq!(bid_other(&s), ActionData::Call { suit: Suit::Club, alone: false });
    let s = state(Seat::East, Seat::North, "9c", None, &strong, &tricks);
    assert_eq!(bid_other(&s), ActionData::Call { suit: Suit::Spade, alone: true });
    let s = state(Seat::East, Seat::North, "9s", None, &weak, &tricks);
    assert_eq!(bid_other(&s), ActionData::Pass);
    // The dealer must call, and never the suit of the top card.
    for top in ["9s", "kc", "ad", "qh"] {
        let s = state(Seat::North, Seat::North, top, None, &weak, &tricks);
        match bid_other(&s) {
            ActionData::Call { suit, alone } => {
                assert_ne!(suit, card(top).suit);
                assert!(!alone);
            }
            other => panic!("{:?}", other),
        }
    }
}

#[test]
fn the_robot_leads_and_follows_with_cards_of_its_hand() {
    let contract = Some(Contract { maker: Seat::East, suit: Suit::Spade, alone: false });
    let mut tricks = Tricks::default();
    let hand = cards(&["js", "qs", "ks", "9h", "th"]);
    let s = state(Seat::East, Seat::North, "9s", contract, &hand, &tricks);
    assert!(can_act(&s, ActionType::Lead));
    assert!(!can_act(&s, ActionType::Follow));
    // The maker leads the jack of trump.
    assert_eq!(lead_trick(&s), ActionData::Card { card: card("js") });
    let single = cards(&["9h"]);
    let s = state(Seat::East, Seat::North, "9s", contract, &single, &tricks);
    assert_eq!(lead_trick(&s), ActionData::Card { card: card("9h") });
    // A defender leads an ace that stands alone in its suit.
    let hand = cards(&["ah", "9c", "tc", "qd", "kd"]);
    let s = state(Seat::South, Seat::North, "9s", contract, &hand, &tricks);
    assert_eq!(lead_trick(&s), ActionData::Card { card: card("ah") });

    tricks.push(Trick::new(Suit::Spade, Seat::East, card("9h")));
    // South must follow hearts and wins with the ace.
    let hand = cards(&["ah", "qh", "tc", "qd", "kd"]);
    let s = state(Seat::South, Seat::North, "9s", contract, &hand, &tricks);
    assert!(can_act(&s, ActionType::Follow));
    assert_eq!(follow_trick(&s), ActionData::Card { card: card("ah") });
    // With one heart there is no choice.
    let hand = cards(&["qh", "tc", "qd", "kd"]);
    let s = state(Seat::South, Seat::North, "9s", contract, &hand, &tricks);
    assert_eq!(follow_trick(&s), ActionData::Card { card: card("qh") });
    // Without hearts or trump the robot gives the card that is worth least.
    let hand = cards(&["kc", "tc", "qd", "kd"]);
    let s = state(Seat::South, Seat::North, "9s", contract, &hand, &tricks);
    assert_eq!(follow_trick(&s), ActionData::Card { card: card("tc") });
    let none = cards(&[]);
    let s = state(Seat::South, Seat::North, "9s", contract, &none, &tricks);
    assert!(!can_act(&s, ActionType::Follow));
    let s = state(Seat::South, Seat::North, "9s", None, &hand, &tricks);
    assert!(!can_act(&s, ActionType::Lead));
    assert!(can_act(&s, ActionType::BidTop));
}

#[test]
fn the_dealer_robot_discards_a_card_that_it_holds() {
    let contract = Some(Contract { maker: Seat::East, suit: Suit::Spade, alone: false });
    let tricks = Tricks::default();
    let hand = cards(&["js", "9s", "ah", "kh", "tc", "qh"]);
    let s = state(Seat::North, Seat::North, "9s", contract, &hand, &tricks);
    assert!(can_act(&s, ActionType::DealerDiscard));
    assert_eq!(dealer_discard(&s), ActionData::Card { card: card("tc") });
}

#[test]
fn robots_play_a_round_to_the_end_within_the_rules() {
    let robot = Robot::default();
    for dealer in Seat::all_seats() {
        for _ in 0..25 {
            let mut round = BaseRound::from_config(RoundConfig::random_with_dealer(dealer));
            let mut count = 0;
            while let Some(expect) = round.next_action() {
                let state = round.player_state(expect.seat);
                assert!(can_act(&state, expect.action));
                let data = robot.take_action(state, expect.action);
                let action: Action = expect.with_data(data);
                assert_eq!(round.apply_action(action), Ok(()), "{:?}", action);
                count += 1;
                assert!(count <= 8 + 1 + 20);
            }
            let outcome = round.outcome().unwrap();
            assert!(matches!(outcome.points, 1 | 2 | 4));
            let contract = round.contract().unwrap();
            let tricks = round.tricks();
            assert_eq!(tricks.trick_size(), if contract.alone { 3 } else { 4 });
            assert!(tricks.len() <= if contract.alone { 3 } else { 5 });
            assert!(!robot.handle_error(euchre::PlayerError::DealerMustBidOther));
        }
    }
}

#[test]
fn the_robot_finds_what_it_looks_for() {
    let hand = cards(&["9c", "ah", "js", "kd", "jc", "ad"]);
    assert_eq!(first_pick(&hand, Pick::Trump(Suit::Spade)), Some(card("js")));
    assert_eq!(last_pick(&hand, Pick::Trump(Suit::Spade)), Some(card("jc")));
    assert_eq!(first_pick(&hand, Pick::Plain(Suit::Spade)), Some(card("9c")));
    assert_eq!(last_pick(&hand, Pick::Plain(Suit::Spade)), Some(card("ad")));
    assert_eq!(first_pick(&hand, Pick::Ace), Some(card("ah")));
    assert_eq!(last_pick(&hand, Pick::Ace), Some(card("ad")));
    assert_eq!(first_pick(&hand, Pick::Trump(Suit::Heart)), Some(card("ah")));
    assert_eq!(first_pick(&cards(&["9c"]), Pick::Ace), None);
    assert_eq!(last_pick(&cards(&[]), Pick::Ace), None);
    assert!(Pick::Ace.picks(card("as")));
    assert!(!Pick::Plain(Suit::Club).picks(card("js")));
    // The ace of hearts stands alone, the ace of diamonds beside the king.
    assert_eq!(find_short_ace(&hand, Suit::Spade, 1), Some(card("ah")));
    assert_eq!(find_short_ace(&hand, Suit::Spade, 2), Some(card("ad")));
    assert_eq!(find_short_ace(&hand, Suit::Spade, 3), None);
    // Under hearts the ace of hearts is trump and does not count.
    assert_eq!(find_short_ace(&hand, Suit::Heart, 1), None);
    assert_eq!(find_short_ace(&hand, Suit::Heart, 2), Some(card("ad")));
}

#[test]
fn of_cards_that_are_worth_the_same_the_first_is_the_least() {
    let hand = cards(&["td", "tc", "9h", "9c"]);
    assert_eq!(least_valuable(hand.clone(), Suit::Spade), card("9h"));
    assert_eq!(most_valuable(hand.clone(), Suit::Spade), card("tc"));
    let mut sorted = Hand::new(hand, Suit::Spade);
    sorted.sort();
    assert_eq!(sorted.cards(), &cards(&["9h", "9c", "td", "tc"]));
}
