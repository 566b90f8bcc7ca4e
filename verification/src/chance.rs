//! Where chance enters a round: the dealer's seat and the order of the
//! deck.

use rand::seq::SliceRandom;
use rand::Rng;
use vstd::prelude::*;
use crate::base::BaseRound;
use crate::card::{full_deck, lemma_full_deck_distinct, spec_full_deck, Card, Deck};
use crate::logging::LoggingRound;
use crate::round::{spec_initial, Round};
use crate::config::{spec_deal, RoundConfig};
use crate::deck;
use crate::seat::Seat;

verus! {

/// Draws a number with `Rng::gen_range` over `0..=3`, from the generator
/// that `rand::thread_rng` hands out. Not proved: that the number lies in
/// that range. The generator is seeded by the system and panics where the
/// system has no entropy to give.
#[verifier::external_body]
fn random_below_four() -> (n: u8)
    ensures
        n <= 3,
{
    rand::thread_rng().gen_range(0..=3)
}

/// Shuffles cards in place with `SliceRandom::shuffle`, with the generator
/// that `rand::thread_rng` hands out. Not proved: that the shuffle only
/// swaps cards, so that every card is there as many times as before.
#[verifier::external_body]
fn shuffle_cards(cards: &mut Vec<Card>)
    ensures
        final(cards)@.to_multiset() == old(cards)@.to_multiset(),
{
    cards.shuffle(&mut rand::thread_rng());
}

/// Picks a seat at random: the seat at the place that is drawn. Every
/// seat can come of it.
pub fn random_seat() -> (seat: Seat) {
    Seat::from_index(random_below_four())
}

/// Builds a full deck in random order: every card of the euchre deck,
/// each once.
pub fn shuffled_deck() -> (deck: Deck)
    ensures
        deck@.to_multiset() == spec_full_deck().to_multiset(),
        deck@.len() == 24,
        deck@.no_duplicates(),
{
    let mut cards = full_deck().into_vec();
    shuffle_cards(&mut cards);
    proof {
        lemma_full_deck_distinct();
        vstd::seq_lib::to_multiset_len(cards@);
        vstd::seq_lib::to_multiset_len(spec_full_deck());
        spec_full_deck().lemma_multiset_has_no_duplicates();
        cards@.lemma_multiset_has_no_duplicates_conv();
    }
    deck::Deck::from_vec(cards)
}

/// Cards dealt from a deck in which no card occurs twice are all
/// different.
pub proof fn lemma_deal_distinct(dealer: Seat, deck: Seq<Card>)
    requires
        deck.len() >= 21,
        deck.no_duplicates(),
    ensures
        spec_deal(dealer, deck).cards().no_duplicates(),
{
    let dealt = spec_deal(dealer, deck);
    let cards = dealt.cards();
    let n = deck.len() as int;
    let h0 = dealt.hands[0];
    let h1 = dealt.hands[1];
    let h2 = dealt.hands[2];
    let h3 = dealt.hands[3];
    let k0 = (0 - dealer.spec_index() - 1) % 4;
    let k1 = (1 - dealer.spec_index() - 1) % 4;
    let k2 = (2 - dealer.spec_index() - 1) % 4;
    let k3 = (3 - dealer.spec_index() - 1) % 4;
    assert(k0 != k1 && k0 != k2 && k0 != k3 && k1 != k2 && k1 != k3 && k2 != k3);
    assert(cards.len() == 21);
    let place = |i: int|
        if i == 0 {
            n - 21
        } else if i < 6 {
            n - 5 * (k0 + 1) + (i - 1)
        } else if i < 11 {
            n - 5 * (k1 + 1) + (i - 6)
        } else if i < 16 {
            n - 5 * (k2 + 1) + (i - 11)
        } else {
            n - 5 * (k3 + 1) + (i - 16)
        };
    assert forall|i: int| 0 <= i < 21 implies 0 <= place(i) < n && #[trigger] cards[i] == deck[place(
        i,
    )] by {}
    assert forall|i: int, j: int| 0 <= i < 21 && 0 <= j < 21 && i != j implies cards[i]
        != cards[j] by {
        assert(cards[i] == deck[place(i)]);
        assert(cards[j] == deck[place(j)]);
        assert(place(i) != place(j));
    }
}

impl RoundConfig {
    /// Creates a [`RoundConfig`] with a random dealer and a shuffled deck.
    pub fn random() -> (config: Self)
        ensures
            config@.valid(),
    {
        RoundConfig::random_with_dealer(random_seat())
    }

    /// Creates a specified dealer and a shuffled deck.
    pub fn random_with_dealer(dealer: Seat) -> (config: Self)
        ensures
            config@.valid(),
            config@.dealer == dealer,
    {
        let deck = shuffled_deck();
        proof {
            lemma_deal_distinct(dealer, deck@);
        }
        match RoundConfig::new(dealer, deck) {
            Ok(config) => config,
            Err(_) => vstd::pervasive::unreached(),
        }
    }
}

impl BaseRound {
    /// Begins a round with a random dealer and a shuffled deck.
    pub fn random() -> (round: Self)
        ensures
            round.wf(),
            exists|config: crate::config::RoundConfigView|
                config.valid() && #[trigger] spec_initial(config.dealer, config.hands, config.top)
                    == round@,
    {
        let config = RoundConfig::random();
        let ghost dealt = config@;
        let round = BaseRound::from_config(config);
        assert(spec_initial(dealt.dealer, dealt.hands, dealt.top) == round@);
        round
    }
}

impl LoggingRound {
    /// Creates a new random [`LoggingRound`].
    pub fn random() -> (round: Self)
        ensures
            round.wf(),
            round@.cursor == None::<crate::error::LogId>,
            round@.log.config.valid(),
            round@.log == crate::log::Log::spec_new(round@.log.config),
            round@.round == crate::logging::spec_fresh(round@.log.config),
    {
        LoggingRound::from_config(RoundConfig::random())
    }

    /// Creates a new [`LoggingRound`] with the given dealer and a shuffled
    /// deck.
    pub fn random_with_dealer(dealer: Seat) -> (round: Self)
        ensures
            round.wf(),
            round@.cursor == None::<crate::error::LogId>,
            round@.log.config.valid(),
            round@.log.config.dealer == dealer,
            round@.log == crate::log::Log::spec_new(round@.log.config),
            round@.round == crate::logging::spec_fresh(round@.log.config),
    {
        LoggingRound::from_config(RoundConfig::random_with_dealer(dealer))
    }
}

} // verus!
