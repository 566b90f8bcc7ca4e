use euchre::{Card, Rank, Seat, Suit, Trick};

fn trick(trump: char, cards: &[&str]) -> Trick {
    let trump = Suit::from_char(trump).unwrap();
    let mut cards = cards.iter().map(|s| {
        let mut chars = s.chars();
        let seat = Seat::from_char(chars.next().unwrap()).unwrap();
        let rank = Rank::from_char(chars.next().unwrap()).unwrap();
        let suit = Suit::from_char(chars.next().unwrap()).unwrap();
        assert!(chars.next().is_none());
        (seat, Card { rank, suit })
    });
    let (seat, card) = cards.next().unwrap();
    let mut trick = Trick::new(trump, seat, card);
    for (seat, card) in cards {
        trick.play(seat, card);
    }
    trick
}

#[test]
fn trick_test_trick_best() {
    struct Case {
        trick: Trick,
        expect: Seat,
    }

    fn case(cards: &[&str], expect: char) -> Case {
        Case { trick: trick('H', cards), expect: Seat::from_char(expect).unwrap() }
    }

    let cases = [
        case(&["N9S"], 'N'),
        case(&["N9S", "ETS"], 'E'),
        case(&["ETS", "N9S"], 'E'),
        case(&["NTS", "E9S"], 'N'),
        case(&["NJS", "ETS"], 'N'),
        case(&["NQS", "EJS"], 'N'),
        case(&["NKS", "EQS"], 'N'),
        case(&["NAS", "EKS"], 'N'),
        case(&["NAS", "EKS"], 'N'),
        case(&["NAS", "E9H"], 'E'),
        case(&["NAS", "EJD"], 'E'),
        case(&["NAS", "EJH"], 'E'),
        case(&["NJH", "EJD"], 'N'),
        case(&["NJD", "EJH"], 'E'),
    ];
    for case in cases {
        println!("{:?} -> {:?}", case.trick.cards(), &case.expect);
        assert_eq!(case.expect, case.trick.best().0);
    }
}

#[test]
fn the_right_bower_takes_the_trick() {
    let trick = trick('H', &["N9S", "ETS", "SJH", "WQS"]);
    assert_eq!(trick.best().0, Seat::South);
    assert_eq!(trick.best_value(), 13);
    assert_eq!(trick.len(), 4);
    assert_eq!(trick.lead(), (Seat::North, Card::new(Rank::Nine, Suit::Spade)));
    assert_eq!(trick.trump(), Suit::Heart);
    assert_eq!(trick.get_card(Seat::West), Some(Card::new(Rank::Queen, Suit::Spade)));
}

#[test]
fn of_two_cards_that_are_worth_nothing_the_lead_wins() {
    // Diamonds are trump, a club leads, and nobody follows or trumps.
    let trick = trick('D', &["N9C", "EAS", "SAH"]);
    assert_eq!(trick.best().0, Seat::North);
    assert_eq!(trick.best_value(), 1);
    assert_eq!(trick.get_card(Seat::West), None);
    let copy = trick.clone();
    assert_eq!(copy.cards(), trick.cards());
    assert_eq!(copy.best(), trick.best());
}

#[test]
fn a_hand_must_follow_where_it_can() {
    let trick = trick('H', &["NJD"]);
    let card = |s: &str| euchre::Card::from_str(s).unwrap();
    // The jack of diamonds led as a heart.
    let hand = vec![card("ad"), card("9h"), card("as"), card("jh")];
    assert_eq!(trick.filter(&hand), vec![card("9h"), card("jh")]);
    assert!(trick.is_following_lead(&hand, card("9h")));
    assert!(!trick.is_following_lead(&hand, card("ad")));
    let hand = vec![card("ad"), card("as")];
    assert_eq!(trick.filter(&hand), hand);
    assert!(trick.is_following_lead(&hand, card("ad")));
    assert_eq!(trick.filter(&[]), vec![]);
}

#[test]
fn tricks_count_what_a_team_has_won() {
    let mut tricks = euchre::Tricks::default();
    assert_eq!(tricks.len(), 0);
    assert!(tricks.last().is_none());
    assert!(tricks.get(0).is_none());
    assert_eq!(tricks.trick_size(), 4);
    tricks.set_trick_size(3);
    tricks.push(trick('H', &["N9S", "ETS", "SJH"]));
    tricks.push(trick('H', &["SAD"]));
    assert_eq!(tricks.len(), 2);
    // The second trick is not complete and counts for nobody.
    assert_eq!(tricks.win_count(euchre::Team::NorthSouth), 1);
    assert_eq!(tricks.win_count(euchre::Team::EastWest), 0);
    tricks.play(Seat::West, Card::new(Rank::Jack, Suit::Diamond));
    tricks.play(Seat::North, Card::new(Rank::Nine, Suit::Diamond));
    assert_eq!(tricks.last().unwrap().len(), 3);
    assert_eq!(tricks.win_count(euchre::Team::NorthSouth), 1);
    assert_eq!(tricks.win_count(euchre::Team::EastWest), 1);
    let copy = tricks.clone();
    assert_eq!(copy.len(), 2);
    assert_eq!(copy.trick_size(), 3);
    assert_eq!(copy.get(1).unwrap().cards(), tricks.get(1).unwrap().cards());
    tricks.set_trick_size(4);
    assert_eq!(tricks.win_count(euchre::Team::NorthSouth), 0);
}

#[test]
fn a_trick_is_written_as_the_list_of_its_plays() {
    assert_eq!(trick('H', &["N9S"]).to_string(), "[North:9♤]");
    assert_eq!(
        trick('H', &["N9S", "ETS", "SJH", "WQD"]).to_string(),
        "[North:9♤, East:T♤, South:J♡, West:Q♦]"
    );
}
