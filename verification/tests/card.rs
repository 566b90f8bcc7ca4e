use euchre::card::{full_deck, CardOrder};
use euchre::french;
use euchre::{Card, Color, Rank, Seat, Suit, Team};

fn card(s: &str) -> Card {
    Card::from_str(s).unwrap()
}

#[test]
fn under_hearts_both_red_jacks_are_trump() {
    let lead = card("9s");
    let left = card("jd");
    let right = card("jh");
    assert!(left.is_trump(Suit::Heart));
    assert!(right.is_trump(Suit::Heart));
    assert_eq!(left.value(Suit::Heart, lead), 12);
    assert_eq!(right.value(Suit::Heart, lead), 13);
    assert_eq!(left.effective_suit(Suit::Heart), Suit::Heart);
    assert!(!card("js").is_trump(Suit::Heart));
    assert!(!card("jc").is_trump(Suit::Heart));
    assert!(!card("qd").is_trump(Suit::Heart));
    for card in full_deck().into_vec() {
        if card != right {
            assert!(card.value(Suit::Heart, lead) < 13);
        }
    }
}

#[test]
fn trump_cards_are_worth_seven_to_thirteen() {
    let lead = card("9c");
    let values: Vec<u8> = ["9h", "th", "qh", "kh", "ah", "jd", "jh"]
        .iter()
        .map(|s| card(s).value(Suit::Heart, lead))
        .collect();
    assert_eq!(values, vec![7, 8, 9, 10, 11, 12, 13]);
}

#[test]
fn cards_of_the_suit_led_are_worth_one_to_six() {
    let lead = card("tc");
    let values: Vec<u8> = ["9c", "tc", "jc", "qc", "kc", "ac"]
        .iter()
        .map(|s| card(s).value(Suit::Heart, lead))
        .collect();
    assert_eq!(values, vec![1, 2, 3, 4, 5, 6]);
    // Under spades the jack of clubs is no club any more.
    assert_eq!(card("jc").value(Suit::Spade, lead), 12);
}

#[test]
fn other_cards_are_worth_nothing() {
    assert_eq!(card("as").value(Suit::Heart, card("9c")), 0);
    assert_eq!(card("ad").value(Suit::Heart, card("9c")), 0);
    // Where a trump card led, only trump counts: the jack of diamonds led
    // under hearts, and a diamond does not follow it.
    assert_eq!(card("ad").value(Suit::Heart, card("jd")), 0);
    assert!(!card("ad").is_following(Suit::Heart, card("jd")));
    assert!(card("9h").is_following(Suit::Heart, card("jd")));
    assert!(card("ad").is_following(Suit::Heart, card("9d")));
    assert!(!card("jd").is_following(Suit::Heart, card("9d")));
}

#[test]
fn without_trump_only_the_suit_led_counts() {
    assert_eq!(card("jc").trumpless_value(card("9c")), 3);
    assert_eq!(card("ac").trumpless_value(card("9c")), 6);
    assert_eq!(card("ad").trumpless_value(card("9c")), 0);
}

#[test]
fn a_card_is_written_as_rank_and_suit_and_read_back() {
    assert_eq!(card("9s").to_string(), "9♤");
    assert_eq!(Card::new(Rank::Ten, Suit::Heart).to_string(), "T♡");
    assert_eq!(Card::new(Rank::Jack, Suit::Club).to_string(), "J♣");
    assert_eq!(Card::new(Rank::Ace, Suit::Diamond).to_string(), "A♦");
    for card in full_deck().into_vec() {
        let token = card.to_string();
        assert_eq!(token.chars().count(), 2);
        assert_eq!(Card::from_str(&token), Ok(card));
    }
}

#[test]
fn cards_are_read_from_letters_and_glyphs() {
    assert_eq!(Card::from_str("ad"), Ok(Card::new(Rank::Ace, Suit::Diamond)));
    assert_eq!(Card::from_str("TS"), Ok(Card::new(Rank::Ten, Suit::Spade)));
    assert_eq!(Card::from_str("q♥"), Ok(Card::new(Rank::Queen, Suit::Heart)));
    assert_eq!(Card::from_str("K♧"), Ok(Card::new(Rank::King, Suit::Club)));
    assert_eq!(Card::from_str("9♢"), Ok(Card::new(Rank::Nine, Suit::Diamond)));
    assert_eq!(Card::from_str(""), Err(()));
    assert_eq!(Card::from_str("a"), Err(()));
    assert_eq!(Card::from_str("ads"), Err(()));
    assert_eq!(Card::from_str("da"), Err(()));
    assert_eq!(Card::from_str("1s"), Err(()));
    // Ranks below the nine belong to the French deck only.
    assert_eq!(Card::from_str("8s"), Err(()));
    assert_eq!(
        french::Card::from_str("8s"),
        Ok(french::Card { rank: french::Rank::Eight, suit: Suit::Spade })
    );
    assert_eq!(french::Card::from_str("2♣").map(|c| c.to_string()), Ok(String::from("2♣")));
    assert_eq!(Rank::from_char('8'), None);
    assert_eq!(Rank::from_char('j'), Some(Rank::Jack));
    assert_eq!(Rank::Queen.to_char(), 'Q');
    assert_eq!(french::Rank::from_str("7"), Ok(french::Rank::Seven));
    assert_eq!(french::Rank::from_str("77"), Err(()));
    assert_eq!(Suit::from_str("h"), Ok(Suit::Heart));
    assert_eq!(Suit::from_str("hh"), Err(()));
    assert_eq!(Suit::from_str("x"), Err(()));
    assert_eq!(Rank::from_french(french::Rank::Two), None);
    assert_eq!(Rank::Ace.to_french(), french::Rank::Ace);
    assert_eq!(Card::from_french(card("ks").to_french()), Ok(card("ks")));
}

#[test]
fn suits_have_colours_and_partners() {
    assert_eq!(Suit::Heart.color(), Color::Red);
    assert_eq!(Suit::Diamond.color(), Color::Red);
    assert_eq!(Suit::Club.color(), Color::Black);
    assert_eq!(Suit::Spade.color(), Color::Black);
    assert_eq!(Suit::Heart.to_matching_color(), Suit::Diamond);
    assert_eq!(Suit::Club.to_matching_color(), Suit::Spade);
    assert_eq!(Suit::all_suits(), [Suit::Club, Suit::Diamond, Suit::Heart, Suit::Spade]);
    assert_eq!(Rank::all_ranks().len(), 6);
    assert_eq!(Suit::Heart.to_char(), '♡');
    assert_eq!(Suit::Club.to_str(), "♣");
}

#[test]
fn the_full_deck_has_every_card_once() {
    let deck = full_deck();
    assert_eq!(deck.len(), 24);
    let cards = deck.into_vec();
    assert_eq!(cards[0], card("9c"));
    assert_eq!(cards[1], card("9d"));
    assert_eq!(cards[2], card("9h"));
    assert_eq!(cards[3], card("9s"));
    assert_eq!(cards[4], card("tc"));
    assert_eq!(cards[23], card("as"));
    for (i, a) in cards.iter().enumerate() {
        for b in &cards[i + 1..] {
            assert_ne!(a, b);
        }
    }
}

#[test]
fn cards_leave_the_deck_from_its_end() {
    let mut deck = full_deck();
    assert_eq!(deck.take(2), vec![card("ah"), card("as")]);
    assert_eq!(deck.len(), 22);
    assert_eq!(deck.take(0), vec![]);
    assert_eq!(deck.take(1), vec![card("ad")]);
    assert_eq!(deck.take(100).len(), 21);
    assert_eq!(deck.len(), 0);
    assert_eq!(deck.take(1), vec![]);
}

#[test]
fn the_keys_that_sort_a_hand() {
    assert_eq!(card("9c").plain_key(), 0);
    assert_eq!(card("ac").plain_key(), 5);
    assert_eq!(card("9d").plain_key(), 6);
    assert_eq!(card("9s").plain_key(), 12);
    assert_eq!(card("ah").plain_key(), 23);
    // Under hearts: hearts come last, and the jack of diamonds is a heart.
    assert_eq!(card("jh").trump_key(Suit::Heart), 3 * 14 + 13);
    assert_eq!(card("jd").trump_key(Suit::Heart), 3 * 14 + 12);
    assert_eq!(card("ad").trump_key(Suit::Heart), 14 + 6);
    assert_eq!(card("9c").trump_key(Suit::Heart), 1);
    assert_eq!(card("9c").sort_key(CardOrder::Plain), 0);
    assert_eq!(card("9c").sort_key(CardOrder::Trump(Suit::Club)), 7);
    assert_eq!(card("9c").sort_key(CardOrder::Worth(Suit::Heart)), 1);
    assert_eq!(card("js").sort_key(CardOrder::Worth(Suit::Club)), 12);
}

#[test]
fn seats_go_round_the_table() {
    assert_eq!(Seat::all_seats(), [Seat::North, Seat::East, Seat::South, Seat::West]);
    assert_eq!(Seat::North.next(), Seat::East);
    assert_eq!(Seat::West.next(), Seat::North);
    assert_eq!(Seat::North.opposite(), Seat::South);
    assert_eq!(Seat::East.opposite(), Seat::West);
    assert_eq!(Seat::North.next_n(0), vec![]);
    assert_eq!(Seat::North.next_n(4), vec![Seat::East, Seat::South, Seat::West, Seat::North]);
    assert_eq!(
        Seat::South.next_n(6),
        vec![Seat::West, Seat::North, Seat::East, Seat::South, Seat::West, Seat::North]
    );
    assert_eq!(Seat::East.team(), Team::EastWest);
    assert_eq!(Seat::South.team(), Team::NorthSouth);
    assert_eq!(Team::from(Seat::West), Team::EastWest);
    assert_eq!(Team::EastWest.other(), Team::NorthSouth);
    assert_eq!(Team::NorthSouth.to_abbr(), "N/S");
    assert_eq!(Team::EastWest.name(), "East/West");
    assert_eq!(Seat::West.to_abbr(), 'W');
    assert_eq!(Seat::West.name(), "West");
    assert_eq!(Seat::from_char('e'), Some(Seat::East));
    assert_eq!(Seat::from_char('x'), None);
    for seat in Seat::all_seats() {
        assert_eq!(seat.next().next(), seat.opposite());
        assert_eq!(seat.opposite().team(), seat.team());
        assert_eq!(seat.next().team(), seat.team().other());
        assert_eq!(Seat::all_seats()[seat.index()], seat);
    }
}

#[test]
fn cards_compare_by_rank_and_then_by_suit() {
    assert!(card("9h") < card("tc"));
    assert!(card("tc") < card("td"));
    assert!(card("td") < card("ts"));
    assert!(card("ts") < card("th"));
    assert!(card("kh") < card("ac"));
    assert_eq!(card("jd"), Card::new(Rank::Jack, Suit::Diamond));
    assert_ne!(card("jd"), card("jh"));
    let mut cards = vec![card("ah"), card("9s"), card("9c"), card("js")];
    cards.sort();
    assert_eq!(cards, vec![card("9c"), card("9s"), card("js"), card("ah")]);
}

#[test]
fn a_seat_is_found_by_its_place() {
    assert_eq!(Seat::from_index(0), Seat::North);
    assert_eq!(Seat::from_index(1), Seat::East);
    assert_eq!(Seat::from_index(2), Seat::South);
    assert_eq!(Seat::from_index(3), Seat::West);
    assert_eq!(Seat::from_index(4), Seat::North);
    assert_eq!(Seat::from_index(255), Seat::West);
    for seat in Seat::all_seats() {
        assert_eq!(Seat::from_index(seat.index() as u8), seat);
    }
}
