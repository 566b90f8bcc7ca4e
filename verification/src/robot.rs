//! Robot player

use vstd::prelude::*;
use crate::action::{ActionData, ActionType};
use crate::card::{lemma_sort, sort_cards, spec_sort, spec_sorted, Card, CardOrder, Rank, Suit};
use crate::config::copy_cards;
use crate::action::{Action, ExpectAction};
use crate::error::RoundError;
use crate::player::{can_act, lemma_legal_is_accepted, spec_can_act, spec_legal, Player};
use crate::round::{Round, RoundView};
use crate::round::{Contract, PlayerState};
use crate::seat::Seat;
use crate::trick::TrickView;
use crate::seat::Team;

verus! {

/// The score at which the robot bids.
pub const MIN_Z_SCORE: u8 = 8;

/// The score at which the robot bids to play alone.
pub const MIN_LONER_Z_SCORE: u8 = 11;

/// A player that decides by rules of thumb.
#[derive(Debug, Default)]
pub struct Robot {}

/// What a card adds to the score of a hand: three for a jack that is
/// trump, two for any other trump card, one for an ace that is not trump.
pub open spec fn spec_card_score(card: Card, trump: Suit) -> int {
    if card.spec_is_trump(trump) {
        if card.rank == Rank::Jack {
            3
        } else {
            2
        }
    } else if card.rank == Rank::Ace {
        1
    } else {
        0
    }
}

/// What the cards of a hand add up to.
pub open spec fn spec_cards_score(cards: Seq<Card>, trump: Suit) -> int
    decreases cards.len(),
{
    if cards.len() == 0 {
        0
    } else {
        spec_cards_score(cards.drop_last(), trump) + spec_card_score(cards.last(), trump)
    }
}

/// The cards of a hand that count as a suit under a trump suit.
pub open spec fn spec_group(cards: Seq<Card>, trump: Suit, suit: Suit) -> Seq<Card> {
    cards.filter(|c: Card| c.spec_effective_suit(trump) == suit)
}

/// The number of suits of which a hand holds a card, by what the cards
/// count as under a trump suit.
pub open spec fn spec_num_suits(cards: Seq<Card>, trump: Suit) -> int {
    (if spec_group(cards, trump, Suit::Club).len() > 0 {
        1int
    } else {
        0int
    }) + (if spec_group(cards, trump, Suit::Diamond).len() > 0 {
        1int
    } else {
        0int
    }) + (if spec_group(cards, trump, Suit::Heart).len() > 0 {
        1int
    } else {
        0int
    }) + (if spec_group(cards, trump, Suit::Spade).len() > 0 {
        1int
    } else {
        0int
    })
}

/// The score of a hand under a trump suit, after a rubric of Eric Zalas:
/// what the cards add up to, and one more for every suit that the hand is
/// void of, less what a top card that goes to the opponents is worth to
/// them.
pub open spec fn spec_z_score(cards: Seq<Card>, trump: Suit, opponent_top: Option<Card>) -> int {
    let score = spec_cards_score(cards, trump) + (4 - spec_num_suits(cards, trump));
    let penalty = match opponent_top {
        Some(card) => spec_card_score(card, trump),
        None => 0,
    };
    if score >= penalty {
        score - penalty
    } else {
        0
    }
}

/// The card that is worth least when it leads under trump: of several
/// such cards the first.
pub open spec fn spec_least_valuable(cards: Seq<Card>, trump: Suit) -> Card {
    spec_sort(cards, CardOrder::Worth(trump))[0]
}

/// The card that is worth most when it leads under trump: of several
/// such cards the last.
pub open spec fn spec_most_valuable(cards: Seq<Card>, trump: Suit) -> Card {
    spec_sort(cards, CardOrder::Worth(trump)).last()
}

/// The card of a suit of `size` cards that goes so that the suit is left
/// empty, or empty but for an ace: the one card of the suit, if it is no
/// ace, or of two cards the one beside an ace.
pub open spec fn spec_voiding_pick(group: Seq<Card>, size: int) -> Option<Card> {
    if size == 1 {
        if group[0].rank != Rank::Ace {
            Some(group[0])
        } else {
            None
        }
    } else if group[0].rank == Rank::Ace {
        Some(group[1])
    } else if group[1].rank == Rank::Ace {
        Some(group[0])
    } else {
        None
    }
}

/// The card of a suit that goes so that the suit is left empty but for
/// an ace, where the suit is not trump and the hand holds `size` cards
/// of it.
pub open spec fn spec_voiding_of(cards: Seq<Card>, trump: Suit, suit: Suit, size: int) -> Seq<Card> {
    let group = spec_group(cards, trump, suit);
    if suit != trump && group.len() == size {
        match spec_voiding_pick(group, size) {
            Some(card) => seq![card],
            None => Seq::empty(),
        }
    } else {
        Seq::empty()
    }
}

/// The cards that go so that a suit is left empty but for an ace, in the
/// order in which the suits are listed.
pub open spec fn spec_voiding(cards: Seq<Card>, trump: Suit, size: int) -> Seq<Card> {
    spec_voiding_of(cards, trump, Suit::Club, size) + spec_voiding_of(
        cards,
        trump,
        Suit::Diamond,
        size,
    ) + spec_voiding_of(cards, trump, Suit::Heart, size) + spec_voiding_of(
        cards,
        trump,
        Suit::Spade,
        size,
    )
}

/// The cards that go so that a suit is left empty but for an ace, for the
/// first `k` suits.
pub open spec fn spec_voiding_upto(cards: Seq<Card>, trump: Suit, size: int, k: int) -> Seq<Card> {
    (if k >= 1 {
        spec_voiding_of(cards, trump, Suit::Club, size)
    } else {
        Seq::empty()
    }) + (if k >= 2 {
        spec_voiding_of(cards, trump, Suit::Diamond, size)
    } else {
        Seq::empty()
    }) + (if k >= 3 {
        spec_voiding_of(cards, trump, Suit::Heart, size)
    } else {
        Seq::empty()
    }) + (if k >= 4 {
        spec_voiding_of(cards, trump, Suit::Spade, size)
    } else {
        Seq::empty()
    })
}

/// The card that the dealer discards: the least of the cards that leave
/// the hand void of a suit, else the least of those that leave an ace
/// alone in its suit, else the card that is worth least.
pub open spec fn spec_dealer_discard(cards: Seq<Card>, trump: Suit) -> Card {
    if spec_voiding(cards, trump, 1).len() > 0 {
        spec_least_valuable(spec_voiding(cards, trump, 1), trump)
    } else if spec_voiding(cards, trump, 2).len() > 0 {
        spec_least_valuable(spec_voiding(cards, trump, 2), trump)
    } else {
        spec_least_valuable(cards, trump)
    }
}

/// The hand that the dealer keeps: without the card discarded, and put
/// in order where no suit could be left empty.
pub open spec fn spec_after_dealer_discard(cards: Seq<Card>, trump: Suit) -> Seq<Card> {
    if spec_voiding(cards, trump, 1).len() > 0 || spec_voiding(cards, trump, 2).len() > 0 {
        cards.remove_value(spec_dealer_discard(cards, trump))
    } else {
        spec_sort(cards, CardOrder::Worth(trump)).drop_first()
    }
}

/// Every card that a filter keeps is a card of the sequence.
pub proof fn lemma_filter_subset(cards: Seq<Card>, pred: spec_fn(Card) -> bool, i: int)
    requires
        0 <= i < cards.filter(pred).len(),
    ensures
        cards.contains(cards.filter(pred)[i]),
        pred(cards.filter(pred)[i]),
    decreases cards.len(),
{
    reveal(Seq::filter);
    if cards.len() > 0 {
        let before = cards.drop_last().filter(pred);
        if i < before.len() {
            lemma_filter_subset(cards.drop_last(), pred, i);
            let k = choose|k: int|
                0 <= k < cards.drop_last().len() && cards.drop_last()[k] == before[i];
            assert(cards[k] == before[i]);
        } else {
            assert(cards[cards.len() - 1] == cards.last());
        }
    }
}

/// A card that a permutation of a hand holds is a card of the hand.
pub proof fn lemma_permutation_contains(a: Seq<Card>, b: Seq<Card>, card: Card)
    requires
        a.to_multiset() == b.to_multiset(),
        a.contains(card),
    ensures
        b.contains(card),
        a.len() == b.len(),
{
    broadcast use vstd::seq_lib::group_to_multiset_ensures;

    vstd::seq_lib::to_multiset_len(a);
    vstd::seq_lib::to_multiset_len(b);
    assert(a.to_multiset().count(card) > 0);
    assert(b.to_multiset().count(card) > 0);
}

/// What a card adds to the score of a hand.
pub fn card_score(card: Card, trump: Suit) -> (score: u8)
    ensures
        score == spec_card_score(card, trump),
        score <= 3,
{
    match (card.is_trump(trump), card.rank) {
        (true, Rank::Jack) => 3,
        (true, _) => 2,
        (false, Rank::Ace) => 1,
        _ => 0,
    }
}

/// Picks the card that is worth least when it leads under trump.
pub fn least_valuable(cards: Vec<Card>, trump: Suit) -> (card: Card)
    requires
        cards@.len() >= 1,
    ensures
        card == spec_least_valuable(cards@, trump),
        cards@.contains(card),
        forall|i: int|
            0 <= i < cards@.len() ==> card.spec_value(trump, card) <= (#[trigger] cards@[i]).spec_value(
                trump,
                cards@[i],
            ),
{
    let mut cards = cards;
    let ghost before = cards@;
    sort_cards(&mut cards, CardOrder::Worth(trump));
    proof {
        vstd::seq_lib::to_multiset_len(cards@);
        vstd::seq_lib::to_multiset_len(before);
        lemma_permutation_contains(cards@, before, cards@[0]);
        assert forall|i: int| 0 <= i < before.len() implies cards@[0].spec_value(trump, cards@[0])
            <= (#[trigger] before[i]).spec_value(trump, before[i]) by {
            lemma_permutation_contains(before, cards@, before[i]);
            let k = choose|k: int| 0 <= k < cards@.len() && cards@[k] == before[i];
            if k > 0 {
                assert(cards@[0].spec_sort_key(CardOrder::Worth(trump)) <= cards@[k].spec_sort_key(
                    CardOrder::Worth(trump),
                ));
            }
        }
    }
    cards[0]
}

/// Picks the card that is worth most when it leads under trump.
pub fn most_valuable(cards: Vec<Card>, trump: Suit) -> (card: Card)
    requires
        cards@.len() >= 1,
    ensures
        card == spec_most_valuable(cards@, trump),
        cards@.contains(card),
        forall|i: int|
            0 <= i < cards@.len() ==> card.spec_value(trump, card) >= (#[trigger] cards@[i]).spec_value(
                trump,
                cards@[i],
            ),
{
    let mut cards = cards;
    let ghost before = cards@;
    sort_cards(&mut cards, CardOrder::Worth(trump));
    proof {
        vstd::seq_lib::to_multiset_len(cards@);
        vstd::seq_lib::to_multiset_len(before);
        let last = cards@[cards@.len() - 1];
        lemma_permutation_contains(cards@, before, last);
        assert forall|i: int| 0 <= i < before.len() implies last.spec_value(trump, last) >= (
        #[trigger] before[i]).spec_value(trump, before[i]) by {
            lemma_permutation_contains(before, cards@, before[i]);
            let k = choose|k: int| 0 <= k < cards@.len() && cards@[k] == before[i];
            if k < cards@.len() - 1 {
                assert(cards@[k].spec_sort_key(CardOrder::Worth(trump)) <= cards@[cards@.len()
                    - 1].spec_sort_key(CardOrder::Worth(trump)));
            }
        }
    }
    let last = cards.len() - 1;
    cards[last]
}

/// Takes the first card that is the given one out of the cards.
pub fn discard(cards: &mut Vec<Card>, card: Card) -> (found: Option<Card>)
    ensures
        found == (if old(cards)@.contains(card) {
            Some(card)
        } else {
            None
        }),
        final(cards)@ == old(cards)@.remove_value(card),
        old(cards)@.contains(card) ==> final(cards)@.len() == old(cards)@.len() - 1,
        !old(cards)@.contains(card) ==> final(cards)@ == old(cards)@,
{
    let mut i: usize = 0;
    while i < cards.len()
        invariant
            i <= cards.len(),
            cards@ == old(cards)@,
            forall|j: int| 0 <= j < i ==> cards@[j] != card,
        decreases cards.len() - i,
    {
        if cards[i] == card {
            proof {
                crate::base::lemma_remove_first(cards@, card, i as int);
            }
            let found = cards.remove(i);
            return Some(found);
        }
        i = i + 1;
    }
    proof {
        cards@.index_of_first_ensures(card);
    }
    None
}

/// Picks the cards that count as a suit under a trump suit.
pub fn group_of_suit(cards: &Vec<Card>, trump: Suit, suit: Suit) -> (group: Vec<Card>)
    ensures
        group@ == spec_group(cards@, trump, suit),
{
    let ghost pred = |c: Card| c.spec_effective_suit(trump) == suit;
    let mut group: Vec<Card> = Vec::new();
    let mut i: usize = 0;
    proof {
        reveal(Seq::filter);
        assert(cards@.take(0) =~= Seq::<Card>::empty());
    }
    while i < cards.len()
        invariant
            i <= cards.len(),
            pred == |c: Card| c.spec_effective_suit(trump) == suit,
            group@ == cards@.take(i as int).filter(pred),
        decreases cards.len() - i,
    {
        let c = cards[i];
        proof {
            assert(cards@.take(i + 1).drop_last() =~= cards@.take(i as int));
            assert(cards@.take(i + 1).last() == c);
            reveal(Seq::filter);
        }
        if c.effective_suit(trump) == suit {
            group.push(c);
        }
        i = i + 1;
    }
    assert(cards@.take(i as int) =~= cards@);
    group
}

/// A hand of cards as the robot weighs it under a trump suit.
#[derive(Debug)]
pub struct Hand {
    cards: Vec<Card>,
    trump: Suit,
}

impl View for Hand {
    type V = Seq<Card>;

    /// The cards of the hand.
    closed spec fn view(&self) -> Seq<Card> {
        self.cards@
    }
}

impl Hand {
    /// The trump suit under which the hand is weighed.
    pub closed spec fn spec_trump(&self) -> Suit {
        self.trump
    }

    /// Takes up the cards to weigh them under a trump suit.
    pub fn new(cards: Vec<Card>, trump: Suit) -> (hand: Self)
        ensures
            hand@ == cards@,
            hand.spec_trump() == trump,
    {
        Self { cards, trump }
    }

    /// Copies the hand.
    pub fn copy(&self) -> (hand: Self)
        ensures
            hand@ == self@,
            hand.spec_trump() == self.spec_trump(),
    {
        Self { cards: copy_cards(&self.cards), trump: self.trump }
    }

    /// Returns the number of cards.
    pub fn len(&self) -> (n: usize)
        ensures
            n == self@.len(),
    {
        self.cards.len()
    }

    /// Returns the cards.
    pub fn cards(&self) -> (cards: &Vec<Card>)
        ensures
            cards@ == self@,
    {
        &self.cards
    }

    /// Returns the number of suits of which the hand holds a card.
    pub fn num_suits(&self) -> (n: usize)
        ensures
            n == spec_num_suits(self@, self.spec_trump()),
            n <= 4,
            self@.len() >= 1 ==> n >= 1,
    {
        let clubs = group_of_suit(&self.cards, self.trump, Suit::Club).len();
        let diamonds = group_of_suit(&self.cards, self.trump, Suit::Diamond).len();
        let hearts = group_of_suit(&self.cards, self.trump, Suit::Heart).len();
        let spades = group_of_suit(&self.cards, self.trump, Suit::Spade).len();
        let mut n: usize = 0;
        if clubs > 0 {
            n = n + 1;
        }
        if diamonds > 0 {
            n = n + 1;
        }
        if hearts > 0 {
            n = n + 1;
        }
        if spades > 0 {
            n = n + 1;
        }
        proof {
            if self@.len() >= 1 {
                let first = self@[0];
                let suit = first.spec_effective_suit(self.trump);
                self@.lemma_filter_contains(
                    |c: Card| c.spec_effective_suit(self.trump) == suit,
                    0,
                );
            }
        }
        n
    }

    /// Adds a card to the hand.
    pub fn push(&mut self, card: Card)
        ensures
            final(self)@ == old(self)@.push(card),
            final(self).spec_trump() == old(self).spec_trump(),
    {
        self.cards.push(card);
    }

    /// Puts the cards in the order of what they are worth when they lead,
    /// the least first.
    pub fn sort(&mut self)
        ensures
            final(self)@ == spec_sort(old(self)@, CardOrder::Worth(old(self).spec_trump())),
            final(self)@.to_multiset() == old(self)@.to_multiset(),
            final(self)@.len() == old(self)@.len(),
            spec_sorted(final(self)@, CardOrder::Worth(old(self).spec_trump())),
            final(self).spec_trump() == old(self).spec_trump(),
    {
        sort_cards(&mut self.cards, CardOrder::Worth(self.trump));
    }

    /// Takes a card out of the hand, if the hand holds it.
    pub fn discard(&mut self, card: Card) -> (found: Option<Card>)
        ensures
            found == (if old(self)@.contains(card) {
                Some(card)
            } else {
                None
            }),
            final(self)@ == old(self)@.remove_value(card),
            old(self)@.contains(card) ==> final(self)@.len() == old(self)@.len() - 1,
            !old(self)@.contains(card) ==> final(self)@ == old(self)@,
            final(self).spec_trump() == old(self).spec_trump(),
    {
        discard(&mut self.cards, card)
    }

    /// Takes a card out of the hand that the hand holds.
    pub fn must_discard(&mut self, card: Card) -> (found: Card)
        requires
            old(self)@.contains(card),
        ensures
            found == card,
            final(self)@ == old(self)@.remove_value(card),
            final(self)@.len() == old(self)@.len() - 1,
            final(self).spec_trump() == old(self).spec_trump(),
    {
        self.discard(card).unwrap()
    }

    /// Takes the first card out of the hand, if there is one.
    pub fn discard_first(&mut self) -> (found: Option<Card>)
        ensures
            match found {
                Some(card) => {
                    &&& old(self)@.len() > 0
                    &&& card == old(self)@[0]
                    &&& final(self)@ == old(self)@.drop_first()
                },
                None => old(self)@.len() == 0 && final(self)@ == old(self)@,
            },
            final(self).spec_trump() == old(self).spec_trump(),
    {
        if self.cards.len() == 0 {
            None
        } else {
            let card = self.cards.remove(0);
            assert(self.cards@ =~= old(self)@.drop_first());
            Some(card)
        }
    }

    /// Takes the first card out of a hand that is not empty.
    pub fn must_discard_first(&mut self) -> (found: Card)
        requires
            old(self)@.len() > 0,
        ensures
            found == old(self)@[0],
            final(self)@ == old(self)@.drop_first(),
            final(self).spec_trump() == old(self).spec_trump(),
    {
        self.discard_first().unwrap()
    }

    /// Picks the cards, one of each suit but trump of which the hand
    /// holds `size` cards, that leave the suit empty of all but an ace:
    /// the one card of a suit, if it is no ace, or the card beside an ace.
    fn voiding(&self, size: usize) -> (found: Vec<Card>)
        requires
            size == 1 || size == 2,
        ensures
            found@ == spec_voiding(self@, self.spec_trump(), size as int),
            forall|i: int| 0 <= i < found@.len() ==> self@.contains(#[trigger] found@[i]),
    {
        let suits = Suit::all_suits();
        let mut found: Vec<Card> = Vec::new();
        let mut k: usize = 0;
        while k < 4
            invariant
                k <= 4,
                suits@ == seq![Suit::Club, Suit::Diamond, Suit::Heart, Suit::Spade],
                size == 1 || size == 2,
                forall|i: int| 0 <= i < found@.len() ==> self@.contains(#[trigger] found@[i]),
                found@ == spec_voiding_upto(self@, self.trump, size as int, k as int),
            decreases 4 - k,
        {
            let ghost before = found@;
            let suit = suits[k];
            let group = group_of_suit(&self.cards, self.trump, suit);
            if suit != self.trump && group.len() == size {
                let pick = if size == 1 {
                    if group[0].rank != Rank::Ace {
                        Some(0usize)
                    } else {
                        None
                    }
                } else {
                    match (group[0].rank, group[1].rank) {
                        (Rank::Ace, _) => Some(1usize),
                        (_, Rank::Ace) => Some(0usize),
                        _ => None,
                    }
                };
                match pick {
                    Some(place) => {
                        proof {
                            lemma_filter_subset(
                                self@,
                                |c: Card| c.spec_effective_suit(self.trump) == suit,
                                place as int,
                            );
                        }
                        found.push(group[place]);
                    },
                    None => {},
                }
            }
            proof {
                assert(found@ =~= before + spec_voiding_of(self@, self.trump, suit, size as int));
            }
            k = k + 1;
        }
        found
    }

    /// Picks the card for the dealer to discard and takes it out of the
    /// hand: a card that leaves the hand void of a suit, else one that
    /// leaves an ace alone in its suit, else a card that is worth least.
    pub fn dealer_discard(&mut self) -> (card: Card)
        requires
            old(self)@.len() >= 1,
        ensures
            card == spec_dealer_discard(old(self)@, old(self).spec_trump()),
            final(self)@ == spec_after_dealer_discard(old(self)@, old(self).spec_trump()),
            old(self)@.contains(card),
            final(self)@.to_multiset() == old(self)@.to_multiset().remove(card),
            final(self)@.len() == old(self)@.len() - 1,
            final(self).spec_trump() == old(self).spec_trump(),
    {
        broadcast use vstd::seq_lib::group_to_multiset_ensures;

        // Find a non-trump non-Ace that will void a suit.
        let voiding = self.voiding(1);
        if voiding.len() > 0 {
            let card = least_valuable(voiding, self.trump);
            proof {
                lemma_remove_value_multiset(self@, card);
            }
            return self.must_discard(card);
        }
        // Find a non-trump non-Ace that will leave only an Ace behind.
        let near_voiding = self.voiding(2);
        if near_voiding.len() > 0 {
            let card = least_valuable(near_voiding, self.trump);
            proof {
                lemma_remove_value_multiset(self@, card);
            }
            return self.must_discard(card);
        }
        // Can't void a suit, just remove the weakest card.
        self.sort();
        proof {
            vstd::seq_lib::to_multiset_len(self@);
            vstd::seq_lib::to_multiset_len(old(self)@);
            lemma_permutation_contains(self@, old(self)@, self@[0]);
            assert(self@ =~= seq![self@[0]] + self@.drop_first());
            vstd::seq_lib::lemma_multiset_commutative(seq![self@[0]], self@.drop_first());
            assert(seq![self@[0]].to_multiset() =~= vstd::multiset::Multiset::singleton(self@[0]));
            assert(self@.drop_first().to_multiset() =~= self@.to_multiset().remove(self@[0]));
        }
        self.must_discard_first()
    }

    /// Computes the score of the hand.
    pub fn z_score(&self, opponent_top: Option<Card>) -> (score: u8)
        requires
            1 <= self@.len() <= 7,
        ensures
            score == spec_z_score(self@, self.spec_trump(), opponent_top),
            score <= 24,
    {
        let mut score: u8 = 0;
        let mut i: usize = 0;
        assert(self@.take(0) =~= Seq::<Card>::empty());
        // Intrinsic card values.
        while i < self.cards.len()
            invariant
                i <= self.cards@.len() <= 7,
                score == spec_cards_score(self@.take(i as int), self.trump),
                score <= 3 * i,
            decreases self.cards@.len() - i,
        {
            proof {
                assert(self@.take(i + 1).drop_last() =~= self@.take(i as int));
                assert(self@.take(i + 1).last() == self@[i as int]);
            }
            score = score + card_score(self.cards[i], self.trump);
            i = i + 1;
        }
        assert(self@.take(i as int) =~= self@);
        // Voids.
        let suits = self.num_suits();
        score = score + (4 - suits as u8);
        // Top card given to opponent.
        let penalty = match opponent_top {
            Some(card) => card_score(card, self.trump),
            None => 0,
        };
        score.saturating_sub(penalty)
    }
}

/// Taking a card out of a hand that holds it leaves the other cards.
pub proof fn lemma_remove_value_multiset(cards: Seq<Card>, card: Card)
    requires
        cards.contains(card),
    ensures
        cards.remove_value(card).to_multiset() == cards.to_multiset().remove(card),
{
    broadcast use vstd::seq_lib::group_to_multiset_ensures;

    cards.index_of_first_ensures(card);
    let i = cards.index_of_first(card).unwrap();
    vstd::seq_lib::to_multiset_remove(cards, i);
}

/// Whether a score is higher than the score of the hand under every suit
/// but the one given.
pub open spec fn spec_beats_other_suits(hand: Seq<Card>, top_suit: Suit, score: int) -> bool {
    &&& top_suit != Suit::Club ==> score > spec_z_score(hand, Suit::Club, None)
    &&& top_suit != Suit::Diamond ==> score > spec_z_score(hand, Suit::Diamond, None)
    &&& top_suit != Suit::Heart ==> score > spec_z_score(hand, Suit::Heart, None)
    &&& top_suit != Suit::Spade ==> score > spec_z_score(hand, Suit::Spade, None)
}

/// The bid of the robot for the top card. The robot weighs its hand with
/// the suit of the top card as trump: with the top card in it, where the
/// dealer is of its own team, and after the discard, where it deals
/// itself; else against the top card. With a score of eight it calls:
/// alone from eleven, for which the partner of the dealer counts the hand
/// without the top card and one point more. As the dealer it also calls
/// with a score of six, where the hand would score less in every other
/// suit.
pub open spec fn spec_bid_top(hand: Seq<Card>, seat: Seat, dealer: Seat, top: Card) -> ActionData {
    let trump = top.suit;
    let with_top = hand.push(top);
    let score = if seat.spec_team() == dealer.spec_team() {
        spec_z_score(
            if dealer == seat {
                spec_after_dealer_discard(with_top, trump)
            } else {
                with_top
            },
            trump,
            None,
        )
    } else {
        spec_z_score(hand, trump, Some(top))
    };
    if score >= MIN_Z_SCORE {
        let alone_score = if seat == dealer.spec_opposite() {
            spec_z_score(hand, trump, None) + 1
        } else {
            score
        };
        ActionData::Call { suit: trump, alone: alone_score >= MIN_LONER_Z_SCORE }
    } else if score + 2 >= MIN_Z_SCORE && seat == dealer && spec_beats_other_suits(
        hand,
        trump,
        score,
    ) {
        ActionData::Call { suit: trump, alone: false }
    } else {
        ActionData::Pass
    }
}

/// The suit at a place in the list of all suits.
pub open spec fn spec_suit_at(k: int) -> Suit {
    if k == 0 {
        Suit::Club
    } else if k == 1 {
        Suit::Diamond
    } else if k == 2 {
        Suit::Heart
    } else {
        Suit::Spade
    }
}

/// The bid of the robot for another suit, from the suit at place `k` on,
/// where `best` is the best of the suits before with its score.
pub open spec fn spec_bid_other_from(
    hand: Seq<Card>,
    top_suit: Suit,
    deals: bool,
    k: int,
    best: (int, Suit),
) -> ActionData
    decreases 4 - k,
{
    if k >= 4 {
        if deals {
            ActionData::Call { suit: best.1, alone: false }
        } else {
            ActionData::Pass
        }
    } else {
        let suit = spec_suit_at(k);
        let score = spec_z_score(hand, suit, None);
        if suit == top_suit {
            spec_bid_other_from(hand, top_suit, deals, k + 1, best)
        } else if score >= MIN_Z_SCORE {
            ActionData::Call { suit, alone: score >= MIN_LONER_Z_SCORE }
        } else if score > best.0 {
            spec_bid_other_from(hand, top_suit, deals, k + 1, (score, suit))
        } else {
            spec_bid_other_from(hand, top_suit, deals, k + 1, best)
        }
    }
}

/// The bid of the robot for another suit than that of the top card. The
/// robot calls the first suit, in the order in which the suits are
/// listed, under which its hand scores eight: alone from eleven. Where
/// there is none it passes, unless it deals: then it calls the first of
/// the suits under which its hand scores most.
pub open spec fn spec_bid_other(hand: Seq<Card>, top_suit: Suit, deals: bool) -> ActionData {
    spec_bid_other_from(hand, top_suit, deals, 0, (0, top_suit.spec_to_matching_color()))
}

/// What the robot looks for in a hand.
#[derive(Debug, Clone, Copy, PartialEq, Eq, Structural)]
pub enum Pick {
    /// A card that is trump.
    Trump(Suit),
    /// A card that is not trump.
    Plain(Suit),
    /// An ace.
    Ace,
}

impl Pick {
    /// Whether a card is what is looked for.
    pub open spec fn spec_picks(self, card: Card) -> bool {
        match self {
            Pick::Trump(trump) => card.spec_is_trump(trump),
            Pick::Plain(trump) => !card.spec_is_trump(trump),
            Pick::Ace => card.rank == Rank::Ace,
        }
    }

    /// Tells whether a card is what is looked for.
    #[verifier::when_used_as_spec(spec_picks)]
    pub fn picks(self, card: Card) -> (b: bool)
        ensures
            b == self.spec_picks(card),
    {
        match self {
            Pick::Trump(trump) => card.is_trump(trump),
            Pick::Plain(trump) => !card.is_trump(trump),
            Pick::Ace => matches!(card.rank, Rank::Ace),
        }
    }
}

/// The first of the cards that is what is looked for.
pub open spec fn spec_first_pick(cards: Seq<Card>, pick: Pick) -> Option<Card>
    decreases cards.len(),
{
    if cards.len() == 0 {
        None
    } else {
        match spec_first_pick(cards.drop_last(), pick) {
            Some(card) => Some(card),
            None => if pick.spec_picks(cards.last()) {
                Some(cards.last())
            } else {
                None
            },
        }
    }
}

/// The last of the cards that is what is looked for.
pub open spec fn spec_last_pick(cards: Seq<Card>, pick: Pick) -> Option<Card>
    decreases cards.len(),
{
    if cards.len() == 0 {
        None
    } else if pick.spec_picks(cards.last()) {
        Some(cards.last())
    } else {
        spec_last_pick(cards.drop_last(), pick)
    }
}

/// What is found first among cards is one of them, and is found first
/// among any cards that begin with them.
pub proof fn lemma_first_pick(cards: Seq<Card>, pick: Pick, n: int)
    requires
        0 <= n <= cards.len(),
    ensures
        match spec_first_pick(cards.take(n), pick) {
            Some(card) => spec_first_pick(cards, pick) == Some(card) && cards.contains(card),
            None => true,
        },
    decreases cards.len() - n,
{
    if n == cards.len() {
        assert(cards.take(n) =~= cards);
        lemma_pick_contains(cards, pick);
    } else {
        assert(cards.take(n + 1).drop_last() =~= cards.take(n));
        lemma_first_pick(cards, pick, n + 1);
    }
}

/// What is found among cards is one of them.
pub proof fn lemma_pick_contains(cards: Seq<Card>, pick: Pick)
    ensures
        match spec_first_pick(cards, pick) {
            Some(card) => cards.contains(card),
            None => true,
        },
        match spec_last_pick(cards, pick) {
            Some(card) => cards.contains(card),
            None => true,
        },
    decreases cards.len(),
{
    if cards.len() > 0 {
        lemma_pick_contains(cards.drop_last(), pick);
        assert(cards[cards.len() - 1] == cards.last());
        match spec_first_pick(cards.drop_last(), pick) {
            Some(card) => {
                let k = choose|k: int| 0 <= k < cards.drop_last().len() && cards.drop_last()[k] == card;
                assert(cards[k] == card);
            },
            None => {},
        }
        match spec_last_pick(cards.drop_last(), pick) {
            Some(card) => {
                let k = choose|k: int| 0 <= k < cards.drop_last().len() && cards.drop_last()[k] == card;
                assert(cards[k] == card);
            },
            None => {},
        }
    }
}

/// Finds the first of the cards that is what is looked for.
pub fn first_pick(cards: &Vec<Card>, pick: Pick) -> (found: Option<Card>)
    ensures
        found == spec_first_pick(cards@, pick),
        found is Some ==> cards@.contains(found.unwrap()),
{
    let mut i: usize = 0;
    assert(cards@.take(0) =~= Seq::<Card>::empty());
    while i < cards.len()
        invariant
            i <= cards.len(),
            spec_first_pick(cards@.take(i as int), pick) is None,
        decreases cards.len() - i,
    {
        proof {
            assert(cards@.take(i + 1).drop_last() =~= cards@.take(i as int));
            assert(cards@.take(i + 1).last() == cards@[i as int]);
        }
        if pick.picks(cards[i]) {
            proof {
                lemma_first_pick(cards@, pick, i + 1);
            }
            return Some(cards[i]);
        }
        i = i + 1;
    }
    assert(cards@.take(i as int) =~= cards@);
    None
}

/// Finds the last of the cards that is what is looked for.
pub fn last_pick(cards: &Vec<Card>, pick: Pick) -> (found: Option<Card>)
    ensures
        found == spec_last_pick(cards@, pick),
        found is Some ==> cards@.contains(found.unwrap()),
{
    let mut n: usize = cards.len();
    assert(cards@.take(n as int) =~= cards@);
    while n > 0
        invariant
            n <= cards.len(),
            spec_last_pick(cards@, pick) == spec_last_pick(cards@.take(n as int), pick),
        decreases n,
    {
        proof {
            assert(cards@.take(n as int).drop_last() =~= cards@.take(n - 1));
            assert(cards@.take(n as int).last() == cards@[n - 1]);
        }
        if pick.picks(cards[n - 1]) {
            assert(cards@.contains(cards@[n - 1]));
            return Some(cards[n - 1]);
        }
        n = n - 1;
    }
    None
}

/// The ace of a suit that is not trump and of which the hand holds
/// `size` cards.
pub open spec fn spec_short_ace_of(cards: Seq<Card>, trump: Suit, suit: Suit, size: int) -> Option<
    Card,
> {
    let group = spec_group(cards, trump, suit);
    if suit != trump && group.len() == size {
        spec_first_pick(group, Pick::Ace)
    } else {
        None
    }
}

/// The ace of the first suit, in the order in which the suits are listed
/// from place `k` on, that is not trump and of which the hand holds
/// `size` cards, the ace among them.
pub open spec fn spec_short_ace_from(cards: Seq<Card>, trump: Suit, size: int, k: int) -> Option<
    Card,
>
    decreases 4 - k,
{
    if k >= 4 {
        None
    } else {
        match spec_short_ace_of(cards, trump, spec_suit_at(k), size) {
            Some(card) => Some(card),
            None => spec_short_ace_from(cards, trump, size, k + 1),
        }
    }
}

/// The ace that stands alone in its suit, or with one other card where
/// `size` is two, in the first suit that has one and is not trump.
pub open spec fn spec_short_ace(cards: Seq<Card>, trump: Suit, size: int) -> Option<Card> {
    spec_short_ace_from(cards, trump, size, 0)
}

/// The card that the robot leads. The one card of a hand is led. Else a
/// seat of the makers leads the jack of trump, if it holds it, or else a
/// trump card: with five cards in hand the least, later the best.
/// Without any of these the robot leads an ace that stands alone in its
/// suit, or else one that stands with one other card. Else it leads its
/// least card while it holds four cards or more; later a defender leads
/// its best card that is not trump, and everyone else their best card.
pub open spec fn spec_lead(hand: Seq<Card>, seat: Seat, contract: Contract) -> Card {
    let trump = contract.suit;
    let makes = contract.maker.spec_team() == seat.spec_team();
    let sorted = spec_sort(hand, CardOrder::Worth(trump));
    let right = Card { rank: Rank::Jack, suit: trump };
    if hand.len() == 1 {
        hand[0]
    } else if makes && hand.contains(right) {
        right
    } else if makes && hand.len() == 5 && spec_first_pick(sorted, Pick::Trump(trump)) is Some {
        spec_first_pick(sorted, Pick::Trump(trump)).unwrap()
    } else if makes && hand.len() != 5 && spec_last_pick(sorted, Pick::Trump(trump)) is Some {
        spec_last_pick(sorted, Pick::Trump(trump)).unwrap()
    } else if spec_short_ace(sorted, trump, 1) is Some {
        spec_short_ace(sorted, trump, 1).unwrap()
    } else if spec_short_ace(sorted, trump, 2) is Some {
        spec_short_ace(sorted, trump, 2).unwrap()
    } else if hand.len() >= 4 {
        sorted[0]
    } else if !makes && spec_last_pick(sorted, Pick::Plain(trump)) is Some {
        spec_last_pick(sorted, Pick::Plain(trump)).unwrap()
    } else {
        sorted.last()
    }
}

/// The card that the robot plays into a trick. Of the cards that it may
/// play, those that are worth less than the best card of the trick lose,
/// the others win. The one card that may be played is played. Without a
/// card that wins the robot gives the least of its cards. With the last
/// card of four it wins with its least card that wins, unless the
/// partner has the trick: then it gives its least card that loses. It
/// also gives way to a partner who has the trick with an ace that is not
/// trump, while it holds four cards or more. Else it plays the best of
/// its cards that win.
pub open spec fn spec_follow(hand: Seq<Card>, seat: Seat, contract: Contract, trick: TrickView) -> Card {
    let trump = contract.suit;
    let cards = trick.playable(hand);
    let best = trick.value_at(trick.winner());
    let losing = cards.filter(|c: Card| c.spec_value(trick.trump, trick.plays[0].1) < best);
    let winning = cards.filter(|c: Card| !(c.spec_value(trick.trump, trick.plays[0].1) < best));
    let partner_winning = trick.winning_seat() == seat.spec_opposite();
    let trusted = hand.len() >= 4 && partner_winning && (match trick.card_of(seat.spec_opposite()) {
        Some(c) => c.rank == Rank::Ace && !c.spec_is_trump(trump),
        None => false,
    });
    if cards.len() == 1 {
        cards[0]
    } else if winning.len() == 0 {
        spec_least_valuable(losing, trump)
    } else if trick.plays.len() == 3 {
        if partner_winning && losing.len() > 0 {
            spec_least_valuable(losing, trump)
        } else {
            spec_least_valuable(winning, trump)
        }
    } else if trusted && losing.len() > 0 {
        spec_least_valuable(losing, trump)
    } else {
        spec_most_valuable(winning, trump)
    }
}

/// What the robot decides for an action of the given kind.
pub open spec fn spec_decision(state: PlayerState, action: ActionType) -> ActionData {
    match action {
        ActionType::BidTop => spec_bid_top(state.hand@, state.seat, state.dealer, state.top),
        ActionType::BidOther => spec_bid_other(
            state.hand@,
            state.top.suit,
            state.seat == state.dealer,
        ),
        ActionType::DealerDiscard => ActionData::Card {
            card: spec_dealer_discard(state.hand@, state.contract.unwrap().suit),
        },
        ActionType::Lead => ActionData::Card {
            card: spec_lead(state.hand@, state.seat, state.contract.unwrap()),
        },
        ActionType::Follow => ActionData::Card {
            card: spec_follow(
                state.hand@,
                state.seat,
                state.contract.unwrap(),
                state.tricks@.tricks.last(),
            ),
        },
    }
}

/// Decides on a bid for the top card.
pub fn bid_top(state: &PlayerState) -> (data: ActionData)
    requires
        spec_can_act(*state, ActionType::BidTop),
    ensures
        data == spec_decision(*state, ActionType::BidTop),
        spec_legal(*state, ActionType::BidTop, data),
{
    let hand = Hand::new(copy_cards(state.hand), state.top.suit);
    let mut score = if Team::from(state.seat) == Team::from(state.dealer) {
        let mut alt_hand = hand.copy();
        alt_hand.push(state.top);
        if state.dealer == state.seat {
            // Dealer knows what to discard (e.g., for voids).
            alt_hand.dealer_discard();
        }
        alt_hand.z_score(None)
    } else {
        hand.z_score(Some(state.top))
    };
    if score >= MIN_Z_SCORE {
        if state.seat == state.dealer.opposite() {
            // If we're considering going alone, and the dealer is
            // opposite, ignore the top card. This could be more nuanced -
            // removing a trump from the game is worth _something_, but
            // it's probably not as good as having it your team's hands.
            // Hence the +1.
            score = hand.z_score(None) + 1;
        }
        ActionData::Call { suit: state.top.suit, alone: score >= MIN_LONER_Z_SCORE }
    } else if score + 2 >= MIN_Z_SCORE && state.seat == state.dealer && beats_other_suits(
        state,
        score,
    ) {
        ActionData::Call { suit: state.top.suit, alone: false }
    } else {
        ActionData::Pass
    }
}

/// Tells whether a score is higher than the score of the hand under
/// every suit but that of the top card.
fn beats_other_suits(state: &PlayerState, score: u8) -> (better: bool)
    requires
        1 <= state.hand@.len() <= 6,
    ensures
        better == spec_beats_other_suits(state.hand@, state.top.suit, score as int),
{
    let suits = Suit::all_suits();
    let mut k: usize = 0;
    while k < 4
        invariant
            k <= 4,
            suits@ == seq![Suit::Club, Suit::Diamond, Suit::Heart, Suit::Spade],
            1 <= state.hand@.len() <= 6,
            forall|j: int|
                0 <= j < k && spec_suit_at(j) != state.top.suit ==> score > spec_z_score(
                    state.hand@,
                    #[trigger] spec_suit_at(j),
                    None,
                ),
        decreases 4 - k,
    {
        let suit = suits[k];
        assert(suit == spec_suit_at(k as int));
        if suit != state.top.suit {
            if !(score > Hand::new(copy_cards(state.hand), suit).z_score(None)) {
                return false;
            }
        }
        k = k + 1;
    }
    proof {
        assert(spec_suit_at(0) == Suit::Club);
        assert(spec_suit_at(1) == Suit::Diamond);
        assert(spec_suit_at(2) == Suit::Heart);
        assert(spec_suit_at(3) == Suit::Spade);
    }
    true
}

/// Decides on a bid for another suit than that of the top card.
pub fn bid_other(state: &PlayerState) -> (data: ActionData)
    requires
        spec_can_act(*state, ActionType::BidOther),
    ensures
        data == spec_decision(*state, ActionType::BidOther),
        spec_legal(*state, ActionType::BidOther, data),
{
    let suits = Suit::all_suits();
    let mut best: (u8, Suit) = (0, state.top.suit.to_matching_color());
    let mut k: usize = 0;
    let ghost deals = state.seat == state.dealer;
    let ghost wanted = spec_bid_other(state.hand@, state.top.suit, deals);
    while k < 4
        invariant
            k <= 4,
            suits@ == seq![Suit::Club, Suit::Diamond, Suit::Heart, Suit::Spade],
            1 <= state.hand@.len() <= 6,
            best.1 != state.top.suit,
            deals == (state.seat == state.dealer),
            wanted == spec_bid_other(state.hand@, state.top.suit, deals),
            wanted == spec_bid_other_from(
                state.hand@,
                state.top.suit,
                deals,
                k as int,
                (best.0 as int, best.1),
            ),
        decreases 4 - k,
    {
        let suit = suits[k];
        assert(suit == spec_suit_at(k as int));
        if suit != state.top.suit {
            let score = Hand::new(copy_cards(state.hand), suit).z_score(None);
            if score >= MIN_Z_SCORE {
                return ActionData::Call { suit, alone: score >= MIN_LONER_Z_SCORE };
            } else if score > best.0 {
                best = (score, suit);
            }
        }
        k = k + 1;
    }
    if state.seat == state.dealer {
        ActionData::Call { suit: best.1, alone: false }
    } else {
        ActionData::Pass
    }
}

/// Decides on the card that the dealer discards.
pub fn dealer_discard(state: &PlayerState) -> (data: ActionData)
    requires
        spec_can_act(*state, ActionType::DealerDiscard),
    ensures
        data == spec_decision(*state, ActionType::DealerDiscard),
        spec_legal(*state, ActionType::DealerDiscard, data),
{
    let contract = state.contract.unwrap();
    let mut hand = Hand::new(copy_cards(state.hand), contract.suit);
    let card = hand.dealer_discard();
    ActionData::Card { card }
}

/// Finds an ace that stands alone in its suit, or with one other card
/// where `size` is two, in a suit that is not trump.
pub fn find_short_ace(cards: &Vec<Card>, trump: Suit, size: usize) -> (found: Option<Card>)
    ensures
        found == spec_short_ace(cards@, trump, size as int),
        found is Some ==> cards@.contains(found.unwrap()),
{
    let suits = Suit::all_suits();
    let mut k: usize = 0;
    while k < 4
        invariant
            k <= 4,
            suits@ == seq![Suit::Club, Suit::Diamond, Suit::Heart, Suit::Spade],
            spec_short_ace(cards@, trump, size as int) == spec_short_ace_from(
                cards@,
                trump,
                size as int,
                k as int,
            ),
        decreases 4 - k,
    {
        let suit = suits[k];
        assert(suit == spec_suit_at(k as int));
        let group = group_of_suit(cards, trump, suit);
        if suit != trump && group.len() == size {
            match first_pick(&group, Pick::Ace) {
                Some(card) => {
                    proof {
                        let i = choose|i: int| 0 <= i < group@.len() && group@[i] == card;
                        lemma_filter_subset(
                            cards@,
                            |c: Card| c.spec_effective_suit(trump) == suit,
                            i,
                        );
                    }
                    return Some(card);
                },
                None => {},
            }
        }
        k = k + 1;
    }
    None
}

/// Decides on the card to lead.
pub fn lead_trick(state: &PlayerState) -> (data: ActionData)
    requires
        spec_can_act(*state, ActionType::Lead),
    ensures
        data == spec_decision(*state, ActionType::Lead),
        spec_legal(*state, ActionType::Lead, data),
{
    if state.hand.len() == 1 {
        // The easiest choice is no choice at all.
        return ActionData::Card { card: state.hand[0] };
    }
    // First trick, defending
    //  - Singleton ace
    //  - Ace with one other card.
    //  - Least non-trump card.
    //
    // First trick, maker
    //  - Right bower, if in my hand
    //  - Least trump
    //
    // First trick, partner
    //  - Right bower, if in my hand
    //  - Least trump
    //  - Singleton ace
    //  - Ace with one other card
    //  - Least card

    let contract = state.contract.unwrap();
    let mut hand = Hand::new(copy_cards(state.hand), contract.suit);
    let team = Team::from(state.seat);
    let trump = contract.suit;
    let makes = Team::from(contract.maker) == team;
    if makes {
        // Right bower
        let right = Card::new(Rank::Jack, trump);
        if let Some(card) = hand.discard(right) {
            return ActionData::Card { card };
        }
    }
    hand.sort();
    let cards = hand.cards();
    proof {
        lemma_sort(state.hand@, CardOrder::Worth(trump));
    }
    if makes {
        if cards.len() == 5 {
            if let Some(card) = first_pick(cards, Pick::Trump(trump)) {
                // Least trump on the first round
                proof {
                    lemma_permutation_contains(cards@, state.hand@, card);
                }
                return ActionData::Card { card };
            }
        } else if let Some(card) = last_pick(cards, Pick::Trump(trump)) {
            // Best trump on subsequent rounds
            proof {
                lemma_permutation_contains(cards@, state.hand@, card);
            }
            return ActionData::Card { card };
        }
    }
    // Singleton ace, or ace with one other card.
    if let Some(card) = find_short_ace(cards, trump, 1) {
        proof {
            lemma_permutation_contains(cards@, state.hand@, card);
        }
        return ActionData::Card { card };
    }
    if let Some(card) = find_short_ace(cards, trump, 2) {
        proof {
            lemma_permutation_contains(cards@, state.hand@, card);
        }
        return ActionData::Card { card };
    }
    let last = cards.len() - 1;
    let card = if cards.len() >= 4 {
        // Least card
        cards[0]
    } else if !makes {
        // Best non-trump card as defender
        if let Some(card) = last_pick(cards, Pick::Plain(trump)) {
            card
        } else {
            cards[last]
        }
    } else {
        // Best card
        cards[last]
    };
    proof {
        lemma_permutation_contains(cards@, state.hand@, card);
    }
    ActionData::Card { card }
}

/// Decides on the card to follow with.
pub fn follow_trick(state: &PlayerState) -> (data: ActionData)
    requires
        spec_can_act(*state, ActionType::Follow),
    ensures
        data == spec_decision(*state, ActionType::Follow),
        spec_legal(*state, ActionType::Follow, data),
{
    // Filter down to what cards I _can_ play.
    let trick = state.current_trick().unwrap();
    let cards = trick.filter(state.hand.as_slice());
    proof {
        lemma_playable(trick@, state.hand@);
    }
    if cards.len() == 1 {
        // The easiest choice is no choice at all.
        return ActionData::Card { card: cards[0] };
    }
    let contract = state.contract.unwrap();
    let trump = contract.suit;

    // Considerations:
    //  - Which position am I?
    //  - Is my partner already winning the trick?
    //  - Do I want to win the trick?
    //  - Parition cards into winning/losing.
    //  - Which cards do I want to get rid of?
    //  - When discarding, can I void a suit?
    //
    let position = trick.len();
    let partner_winning = trick.best().0 == state.seat.opposite();
    let lead = trick.lead().1;
    let best_value = trick.best_value();
    let mut losing: Vec<Card> = Vec::new();
    let mut winning: Vec<Card> = Vec::new();
    let ghost loses = |c: Card|
        c.spec_value(trick@.trump, trick@.plays[0].1) < trick@.value_at(trick@.winner());
    let ghost wins = |c: Card|
        !(c.spec_value(trick@.trump, trick@.plays[0].1) < trick@.value_at(trick@.winner()));
    let mut i: usize = 0;
    proof {
        reveal(Seq::filter);
        assert(cards@.take(0) =~= Seq::<Card>::empty());
    }
    while i < cards.len()
        invariant
            i <= cards.len(),
            trick.wf(),
            lead == trick@.plays[0].1,
            best_value == trick@.value_at(trick@.winner()),
            loses == |c: Card|
                c.spec_value(trick@.trump, trick@.plays[0].1) < trick@.value_at(trick@.winner()),
            wins == |c: Card|
                !(c.spec_value(trick@.trump, trick@.plays[0].1) < trick@.value_at(trick@.winner())),
            losing@ == cards@.take(i as int).filter(loses),
            winning@ == cards@.take(i as int).filter(wins),
            forall|j: int| 0 <= j < losing@.len() ==> cards@.contains(#[trigger] losing@[j]),
            forall|j: int| 0 <= j < winning@.len() ==> cards@.contains(#[trigger] winning@[j]),
        decreases cards.len() - i,
    {
        let c = cards[i];
        proof {
            assert(cards@.contains(cards@[i as int]));
            assert(cards@.take(i + 1).drop_last() =~= cards@.take(i as int));
            assert(cards@.take(i + 1).last() == c);
            reveal(Seq::filter);
        }
        if c.value(trick.trump(), lead) < best_value {
            losing.push(c);
        } else {
            winning.push(c);
        }
        i = i + 1;
    }
    proof {
        assert(cards@.take(i as int) =~= cards@);
        cards@.lemma_filter_len(loses);
        assert(losing@.len() + winning@.len() >= 1) by {
            if cards@.len() > 0 {
                if loses(cards@[0]) {
                    cards@.lemma_filter_contains(loses, 0);
                } else {
                    cards@.lemma_filter_contains(wins, 0);
                }
            }
        }
    }
    let trusted = state.hand.len() >= 4 && partner_winning && match trick.get_card(
        state.seat.opposite(),
    ) {
        Some(c) => matches!(c.rank, Rank::Ace) && !c.is_trump(trump),
        None => false,
    };
    let card = if winning.len() == 0 {
        // Always lose with the least-valued card.
        least_valuable(losing, trump)
    } else if position == 3 {
        // If playing last, we have a choice:
        if partner_winning && losing.len() > 0 {
            // If our partner is winning, let them win.
            least_valuable(losing, trump)
        } else {
            // Win with the least-valued card.
            least_valuable(winning, trump)
        }
    } else if trusted && losing.len() > 0 {
        // Trust our partner, if they play a non-trump Ace early on.
        least_valuable(losing, trump)
    } else {
        // Win with the most-valued card.
        most_valuable(winning, trump)
    };
    ActionData::Card { card }
}

/// The cards of a hand that may be played into a trick are cards of the
/// hand, at least one where the hand has any, and each may be played.
pub proof fn lemma_playable(trick: crate::trick::TrickView, hand: Seq<Card>)
    ensures
        hand.len() >= 1 ==> trick.playable(hand).len() >= 1,
        forall|i: int|
            0 <= i < trick.playable(hand).len() ==> hand.contains(
                #[trigger] trick.playable(hand)[i],
            ) && trick.may_play(hand, trick.playable(hand)[i]),
{
    let pred = |c: Card| trick.follows(c);
    let following = hand.filter(pred);
    assert forall|i: int| 0 <= i < trick.playable(hand).len() implies hand.contains(
        #[trigger] trick.playable(hand)[i],
    ) && trick.may_play(hand, trick.playable(hand)[i]) by {
        if following.len() == 0 {
            assert(!trick.can_follow(hand)) by {
                if trick.can_follow(hand) {
                    let k = choose|k: int| 0 <= k < hand.len() && trick.follows(#[trigger] hand[k]);
                    hand.lemma_filter_contains(pred, k);
                }
            }
        } else {
            lemma_filter_subset(hand, pred, i);
        }
    }
}

impl Player for Robot {
    /// Decides on the action that is asked for. What the robot decides is
    /// within the rules.
    fn take_action(&self, state: PlayerState, action: ActionType) -> (data: ActionData)
        ensures
            data == spec_decision(state, action),
            spec_legal(state, action, data),
    {
        match action {
            ActionType::BidTop => bid_top(&state),
            ActionType::BidOther => bid_other(&state),
            ActionType::DealerDiscard => dealer_discard(&state),
            ActionType::Lead => lead_trick(&state),
            ActionType::Follow => follow_trick(&state),
        }
    }
}

/// Lets the robot take the action that the round expects. A robot does
/// not err: the round accepts what the robot decides, unless the round
/// cannot take note of it. A seat that holds no card, or more than six,
/// is not asked, and neither is anyone once the round is over; then
/// nothing changes, and the answer says why.
pub fn play_as_robot<R: Round>(round: &mut R, robot: &Robot) -> (r: Result<Action, RoundError>)
    requires
        old(round).wf(),
    ensures
        final(round).wf(),
        match r {
            Ok(action) => {
                &&& old(round).state().next_action == Some(
                    ExpectAction { seat: action.seat, action: action.action },
                )
                &&& old(round).state().step(action) == Ok::<RoundView, RoundError>(
                    final(round).state(),
                )
            },
            Err(e) => {
                &&& final(round).state() == old(round).state()
                &&& match old(round).state().next_action {
                    None => e == RoundError::RoundOver,
                    Some(expect) => {
                        let held = old(round).state().hand(expect.seat).len();
                        if 1 <= held <= 6 {
                            !old(round).can_record()
                        } else {
                            e == RoundError::InvalidHandSize
                        }
                    },
                }
            },
        },
{
    let expect = match round.next_action() {
        Some(expect) => expect,
        None => {
            return Err(RoundError::RoundOver);
        },
    };
    let state = round.player_state(expect.seat);
    if !can_act(&state, expect.action) {
        proof {
            round.lemma_wf();
        }
        return Err(RoundError::InvalidHandSize);
    }
    let data = robot.take_action(state, expect.action);
    let action = expect.with_data(data);
    proof {
        round.lemma_wf();
        lemma_legal_is_accepted(round.state(), state, expect, data);
    }
    match round.apply_action(action) {
        Ok(()) => Ok(action),
        Err(e) => Err(e),
    }
}

} // verus!
