use euchre::card::full_deck;
use euchre::chance::{random_seat, shuffled_deck};
use euchre::{Card, Deck, RoundConfig, RoundError, Seat};

fn card(s: &str) -> Card {
    Card::from_str(s).unwrap()
}

fn cards(cards: &[&str]) -> Vec<Card> {
    cards.iter().map(|s| card(s)).collect()
}

fn all_cards(config: &RoundConfig) -> Vec<Card> {
    let mut all = vec![config.top()];
    for seat in Seat::all_seats() {
        all.extend(config.hand(seat).iter().copied());
    }
    all
}

fn assert_distinct(cards: &[Card]) {
    for (i, a) in cards.iter().enumerate() {
        for b in &cards[i + 1..] {
            assert_ne!(a, b);
        }
    }
}

#[test]
fn the_full_deck_is_dealt_from_its_end() {
    let config = RoundConfig::new(Seat::North, full_deck()).unwrap();
    assert_eq!(config.dealer(), Seat::North);
    assert_eq!(config.validate(), Ok(()));
    // East is first and gets the last five cards, sorted by suit and rank.
    assert_eq!(config.hand(Seat::East), &cards(&["ac", "ad", "ks", "as", "ah"]));
    assert_eq!(config.hand(Seat::South), &cards(&["kc", "kd", "qs", "qh", "kh"]));
    assert_eq!(config.hand(Seat::West), &cards(&["qc", "jd", "qd", "js", "jh"]));
    assert_eq!(config.hand(Seat::North), &cards(&["tc", "jc", "td", "ts", "th"]));
    assert_eq!(config.top(), card("9s"));
    let all = all_cards(&config);
    assert_eq!(all.len(), 21);
    assert_distinct(&all);
}

#[test]
fn the_dealer_is_dealt_last() {
    let config = RoundConfig::new(Seat::East, full_deck()).unwrap();
    assert_eq!(config.dealer(), Seat::East);
    assert_eq!(config.hand(Seat::South), &cards(&["ac", "ad", "ks", "as", "ah"]));
    assert_eq!(config.hand(Seat::West), &cards(&["kc", "kd", "qs", "qh", "kh"]));
    assert_eq!(config.hand(Seat::North), &cards(&["qc", "jd", "qd", "js", "jh"]));
    assert_eq!(config.hand(Seat::East), &cards(&["tc", "jc", "td", "ts", "th"]));
    assert_eq!(config.top(), card("9s"));
}

#[test]
fn a_deck_that_is_short_is_incomplete() {
    let mut cards = full_deck().into_vec();
    cards.pop();
    assert_eq!(
        RoundConfig::new(Seat::North, Deck::from_vec(cards)).err(),
        Some(RoundError::IncompleteDeck)
    );
    assert_eq!(
        RoundConfig::new(Seat::North, Deck::from_vec(vec![])).err(),
        Some(RoundError::IncompleteDeck)
    );
}

#[test]
fn a_card_that_is_dealt_twice_is_a_duplicate() {
    let mut cards = full_deck().into_vec();
    cards[23] = cards[10];
    assert_eq!(
        RoundConfig::new(Seat::North, Deck::from_vec(cards)).err(),
        Some(RoundError::DuplicateCard)
    );
    // The top card counts too.
    let mut cards = full_deck().into_vec();
    cards[3] = cards[4];
    assert_eq!(
        RoundConfig::new(Seat::North, Deck::from_vec(cards)).err(),
        Some(RoundError::DuplicateCard)
    );
}

#[test]
fn cards_that_stay_in_the_deck_may_be_anything() {
    let mut cards = full_deck().into_vec();
    cards[0] = cards[23];
    cards[1] = cards[23];
    cards.insert(0, card("9c"));
    let config = RoundConfig::new(Seat::West, Deck::from_vec(cards)).unwrap();
    assert_eq!(config.validate(), Ok(()));
    assert_eq!(config.top(), card("9s"));
}

#[test]
fn validation_finds_hands_of_the_wrong_size_first() {
    let config = RoundConfig::from_hands(
        Seat::North,
        cards(&["ad", "qs", "jh", "th", "9h"]),
        cards(&["jc", "kd", "ks", "kh"]),
        cards(&["ac", "kc", "qc", "qd", "td"]),
        cards(&["tc", "js", "ts", "9s", "ad"]),
        card("jd"),
    );
    assert_eq!(config.validate(), Err(RoundError::InvalidHandSize));
    let config = RoundConfig::from_hands(
        Seat::North,
        cards(&["ad", "qs", "jh", "th", "9h"]),
        cards(&["jc", "kd", "ks", "kh", "qh"]),
        cards(&["ac", "kc", "qc", "qd", "td"]),
        cards(&["tc", "js", "ts", "9s", "ad"]),
        card("jd"),
    );
    assert_eq!(config.validate(), Err(RoundError::DuplicateCard));
    let config = RoundConfig::from_hands(
        Seat::North,
        cards(&["ad", "qs", "jh", "th", "9h"]),
        cards(&["jc", "kd", "ks", "kh", "qh"]),
        cards(&["ac", "kc", "qc", "qd", "td"]),
        cards(&["tc", "js", "ts", "9s", "ah"]),
        card("ah"),
    );
    assert_eq!(config.validate(), Err(RoundError::DuplicateCard));
}

#[test]
fn canonical_hands_are_sorted_by_suit_and_rank() {
    let mut config = RoundConfig::from_hands(
        Seat::South,
        cards(&["ad", "qs", "jh", "th", "9h"]),
        cards(&["jc", "kd", "ks", "kh", "qh"]),
        cards(&["ac", "kc", "qc", "qd", "td"]),
        cards(&["tc", "js", "ts", "9s", "ah"]),
        card("jd"),
    );
    assert_eq!(config.validate(), Ok(()));
    config.canonicalize();
    assert_eq!(config.hand(Seat::North), &cards(&["ad", "qs", "9h", "th", "jh"]));
    assert_eq!(config.hand(Seat::East), &cards(&["jc", "kd", "ks", "qh", "kh"]));
    assert_eq!(config.hand(Seat::South), &cards(&["qc", "kc", "ac", "td", "qd"]));
    assert_eq!(config.hand(Seat::West), &cards(&["tc", "9s", "ts", "js", "ah"]));
    assert_eq!(config.top(), card("jd"));
    assert_eq!(config.dealer(), Seat::South);
    assert_eq!(config.validate(), Ok(()));
    let copy = config.clone();
    assert_eq!(copy.hand(Seat::West), config.hand(Seat::West));
    assert_eq!(copy.top(), config.top());
}

#[test]
fn a_shuffled_deck_holds_every_card_once() {
    let unshuffled = full_deck().into_vec();
    let shuffled = shuffled_deck().into_vec();
    assert_eq!(shuffled.len(), 24);
    for card in &unshuffled {
        assert_eq!(shuffled.iter().filter(|c| *c == card).count(), 1);
    }
    assert_ne!(shuffled, unshuffled);
}

#[test]
fn a_random_round_is_valid() {
    for dealer in Seat::all_seats() {
        let config = RoundConfig::random_with_dealer(dealer);
        assert_eq!(config.dealer(), dealer);
        assert_eq!(config.validate(), Ok(()));
        let all = all_cards(&config);
        assert_eq!(all.len(), 21);
        assert_distinct(&all);
        for seat in Seat::all_seats() {
            let hand = config.hand(seat);
            for pair in hand.windows(2) {
                assert!(pair[0].plain_key() < pair[1].plain_key());
            }
        }
    }
    let config = RoundConfig::random();
    assert_eq!(config.validate(), Ok(()));
    let seat = random_seat();
    assert!(Seat::all_seats().contains(&seat));
}

#[test]
fn a_round_is_dealt_from_a_deck() {
    let round = euchre::BaseRound::new(Seat::South, Deck::default()).unwrap();
    assert_eq!(euchre::Round::dealer(&round), Seat::South);
    assert_eq!(euchre::Round::top_card(&round), card("9s"));
    assert_eq!(
        euchre::Round::player_state(&round, Seat::West).hand,
        &cards(&["ac", "ad", "ks", "as", "ah"])
    );
    assert_eq!(
        euchre::BaseRound::new(Seat::South, Deck::from_vec(vec![])).err(),
        Some(RoundError::IncompleteDeck)
    );
    let mut twice = full_deck().into_vec();
    twice[20] = twice[21];
    assert_eq!(
        euchre::BaseRound::new(Seat::South, Deck::from_vec(twice)).err(),
        Some(RoundError::DuplicateCard)
    );
    assert_eq!(Deck::default().into_vec(), full_deck().into_vec());
}
